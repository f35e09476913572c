//! Self-play data generation.
//!
//! Fully automatic, no I/O per move. A game starts with random plies, is then played out
//! by one searcher for both sides, and leaves a record of every position worth learning
//! from, labelled with how the game ended.

use vstd::prelude::*;
use crate::bits;
use crate::data;
use crate::data::Sample;
use crate::eval::{Evaluator, MATE_THRESHOLD};
use crate::fen;
use crate::laws;
use crate::minimax;
use crate::movegen;
use crate::movegen::{GenMode, MoveList, generate, is_capture};
use crate::plan;
use crate::plan::{Mind, Run, Setup};
use crate::position::{GameResult, Position};
use crate::rules;
use crate::rules::Game;
use crate::search;
use crate::search::{Judge, SearchLimits, SearchOptions, Searcher};
use crate::tables;
use crate::tables::{GOLDEN_GAMMA, SplitMix64};
use crate::types::{Color, Move};

verus! {

broadcast use crate::bits::group_bits;

pub struct SelfPlayConfig<E> {
    pub games: usize,
    pub limits: SearchLimits,
    pub evaluator: E,
    /// Random plies played before the engines take over. Essential — without it
    /// every game is identical.
    pub opening_plies_min: usize,
    pub opening_plies_max: usize,
    /// Reject an opening if a quick search already puts one side this far ahead.
    pub opening_reject_cp: i32,
    /// Keep only positions whose best move is quiet. In a variant this volatile,
    /// training on tactical positions teaches the net noise.
    pub quiet_only: bool,
    pub seed: u64,
    pub tt_megabytes: usize,
}

/// The defaults, with an evaluator.
pub open spec fn usual<E>(evaluator: E) -> SelfPlayConfig<E> {
    SelfPlayConfig {
        games: 1000,
        limits: SearchLimits { depth: Some(6), movetime: None, nodes: None },
        evaluator,
        opening_plies_min: 4,
        opening_plies_max: 8,
        opening_reject_cp: 400,
        quiet_only: true,
        seed: 0x5eed,
        tt_megabytes: 32,
    }
}

impl<E: Copy> Copy for SelfPlayConfig<E> {

}

impl<E: Copy> Clone for SelfPlayConfig<E> {
    fn clone(&self) -> (r: Self)
        ensures
            r == *self,
    {
        *self
    }
}

impl<E> SelfPlayConfig<E> {
    /// The defaults, with an evaluator.
    pub fn with_evaluator(evaluator: E) -> (r: SelfPlayConfig<E>)
        ensures
            r == usual(evaluator),
    {
        SelfPlayConfig {
            games: 1000,
            limits: SearchLimits::depth(6),
            evaluator,
            opening_plies_min: 4,
            opening_plies_max: 8,
            opening_reject_cp: 400,
            quiet_only: true,
            seed: 0x5eed,
            // Starving the table costs far more in re-searched nodes than it saves in
            // cache pressure. Costs threads x 32 MB of RAM; drop it if that is too
            // much.
            tt_megabytes: 32,
        }
    }

    /// The number of opening plies can be drawn.
    pub open spec fn wf(self) -> bool {
        &&& self.opening_plies_min < usize::MAX
        &&& self.opening_plies_max < usize::MAX
    }
}

impl Default for SelfPlayConfig<Evaluator> {
    fn default() -> (r: SelfPlayConfig<Evaluator>)
        ensures
            r == usual(Evaluator::Hand),
    {
        SelfPlayConfig::with_evaluator(Evaluator::Hand)
    }
}

#[derive(Clone, Copy, Debug, PartialEq, Eq, Structural)]
pub struct SelfPlayStats {
    pub games: u64,
    pub white_wins: u64,
    pub black_wins: u64,
    pub draws: u64,
    pub positions_seen: u64,
    pub positions_kept: u64,
    pub nodes: u64,
    pub plies: u64,
}

impl Default for SelfPlayStats {
    fn default() -> (r: SelfPlayStats)
        ensures
            r == no_stats(),
    {
        SelfPlayStats {
            games: 0,
            white_wins: 0,
            black_wins: 0,
            draws: 0,
            positions_seen: 0,
            positions_kept: 0,
            nodes: 0,
            plies: 0,
        }
    }
}

pub open spec fn no_stats() -> SelfPlayStats {
    SelfPlayStats {
        games: 0,
        white_wins: 0,
        black_wins: 0,
        draws: 0,
        positions_seen: 0,
        positions_kept: 0,
        nodes: 0,
        plies: 0,
    }
}

/// No sum of two counts overflows.
pub open spec fn sums_fit(a: SelfPlayStats, b: SelfPlayStats) -> bool {
    &&& a.games + b.games <= u64::MAX
    &&& a.white_wins + b.white_wins <= u64::MAX
    &&& a.black_wins + b.black_wins <= u64::MAX
    &&& a.draws + b.draws <= u64::MAX
    &&& a.positions_seen + b.positions_seen <= u64::MAX
    &&& a.positions_kept + b.positions_kept <= u64::MAX
    &&& a.nodes + b.nodes <= u64::MAX
    &&& a.plies + b.plies <= u64::MAX
}

/// The counts of two runs together.
pub open spec fn merged(a: SelfPlayStats, b: SelfPlayStats) -> SelfPlayStats {
    SelfPlayStats {
        games: (a.games + b.games) as u64,
        white_wins: (a.white_wins + b.white_wins) as u64,
        black_wins: (a.black_wins + b.black_wins) as u64,
        draws: (a.draws + b.draws) as u64,
        positions_seen: (a.positions_seen + b.positions_seen) as u64,
        positions_kept: (a.positions_kept + b.positions_kept) as u64,
        nodes: (a.nodes + b.nodes) as u64,
        plies: (a.plies + b.plies) as u64,
    }
}

impl SelfPlayStats {
    pub fn merge(&mut self, o: &SelfPlayStats)
        requires
            sums_fit(*old(self), *o),
        ensures
            *final(self) == merged(*old(self), *o),
    {
        self.games += o.games;
        self.white_wins += o.white_wins;
        self.black_wins += o.black_wins;
        self.draws += o.draws;
        self.positions_seen += o.positions_seen;
        self.positions_kept += o.positions_kept;
        self.nodes += o.nodes;
        self.plies += o.plies;
    }

    /// The counts together, unless a sum overflows.
    pub fn checked_merge(self, o: SelfPlayStats) -> (r: Option<SelfPlayStats>)
        ensures
            r == if sums_fit(self, o) {
                Some(merged(self, o))
            } else {
                None
            },
    {
        let m: u64 = u64::MAX;
        if self.games <= m - o.games && self.white_wins <= m - o.white_wins && self.black_wins <= m
            - o.black_wins && self.draws <= m - o.draws && self.positions_seen <= m
            - o.positions_seen && self.positions_kept <= m - o.positions_kept && self.nodes <= m
            - o.nodes && self.plies <= m - o.plies {
            let mut sum = self;
            sum.merge(&o);
            Some(sum)
        } else {
            None
        }
    }
}

// ---------------------------------------------------------------------------
// Openings
// ---------------------------------------------------------------------------

/// The state of the random numbers after one has been drawn.
pub open spec fn drawn(state: u64) -> u64 {
    state.wrapping_add(GOLDEN_GAMMA)
}

/// The number below `n` that is drawn in a state.
pub open spec fn draw(state: u64, n: int) -> int {
    tables::splitmix(drawn(state)) as int % n
}

/// `n` random plies from `g`, unless the game ends before, and the state after them.
pub open spec fn walk(g: Game, state: u64, n: nat) -> (Option<Game>, u64)
    decreases n,
{
    let ms = plan::considered(g, GenMode::Search);
    if n == 0 {
        (Some(g), state)
    } else if rules::outcome(g) is Some || ms.len() == 0 {
        (None, state)
    } else {
        walk(plan::next(g, ms[draw(state, ms.len() as int)]), drawn(state), (n - 1) as nat)
    }
}

/// One try at an opening: a random number of random plies from the start of the game,
/// after which the game is still on.
pub open spec fn opened(lo: int, hi: int, state: u64) -> (Option<Game>, u64) {
    let span = if hi > lo {
        hi - lo + 1
    } else {
        1
    };
    let (w, after) = walk(fen::start_game(), drawn(state), (lo + draw(state, span)) as nat);
    match w {
        Some(g) if rules::outcome(g) is None => (Some(g), after),
        _ => (None, after),
    }
}

/// The balance that a quick search finds in a game.
pub open spec fn balance(worth: spec_fn(Game) -> int, g: Game, score: int) -> bool {
    exists|s: Setup, m: Mind|
        search::suits(s, worth, false, true, quick(), true) && plan::fresh(m, search::table_size(1))
            && score == (#[trigger] plan::search(s, m, g, 0, 3)).1.score
}

/// The limits of a quick search.
pub open spec fn quick() -> SearchLimits {
    SearchLimits { depth: Some(3), movetime: None, nodes: None }
}

/// An opening is fair enough.
pub open spec fn fair(score: int, reject: int) -> bool {
    -reject <= score <= reject
}

/// At most `k` tries at an opening, with the balances that quick searches find in those
/// that are still on; the start of the game when none will do.
pub open spec fn opening(
    lo: int,
    hi: int,
    reject: int,
    state: u64,
    k: nat,
    scores: Seq<int>,
) -> (Game, u64)
    decreases k,
{
    let (w, after) = opened(lo, hi, state);
    if k == 0 {
        (fen::start_game(), state)
    } else {
        match w {
            None => opening(lo, hi, reject, after, (k - 1) as nat, scores),
            Some(g) => if fair(scores[0], reject) {
                (g, after)
            } else {
                opening(lo, hi, reject, after, (k - 1) as nat, scores.skip(1))
            },
        }
    }
}

/// The balances are those that quick searches find.
pub open spec fn measured(
    worth: spec_fn(Game) -> int,
    lo: int,
    hi: int,
    reject: int,
    state: u64,
    k: nat,
    scores: Seq<int>,
) -> bool
    decreases k,
{
    let (w, after) = opened(lo, hi, state);
    k == 0 || match w {
        None => measured(worth, lo, hi, reject, after, (k - 1) as nat, scores),
        Some(g) => {
            &&& scores.len() > 0
            &&& balance(worth, g, scores[0])
            &&& fair(scores[0], reject) || measured(
                worth,
                lo,
                hi,
                reject,
                after,
                (k - 1) as nat,
                scores.skip(1),
            )
        },
    }
}

/// What can come of looking for an opening.
pub open spec fn opens<E: Judge>(
    cfg: SelfPlayConfig<E>,
    before: u64,
    scores: Seq<int>,
    g: Game,
    after: u64,
) -> bool {
    let (lo, hi) = (cfg.opening_plies_min as int, cfg.opening_plies_max as int);
    let reject = cfg.opening_reject_cp as int;
    &&& measured(search::worth_of(cfg.evaluator), lo, hi, reject, before, 24, scores)
    &&& (g, after) == opening(lo, hi, reject, before, 24, scores)
}

/// A quick search finds one balance only.
pub proof fn law_balances_are_repeatable(worth: spec_fn(Game) -> int, g: Game, a: int, b: int)
    requires
        balance(worth, g, a),
        balance(worth, g, b),
    ensures
        a == b,
{
    let k = search::table_size(1);
    let (s, m) = choose|s: Setup, m: Mind|
        search::suits(s, worth, false, true, quick(), true) && plan::fresh(m, k) && a == (
        #[trigger] plan::search(s, m, g, 0, 3)).1.score;
    let (t, n) = choose|t: Setup, n: Mind|
        search::suits(t, worth, false, true, quick(), true) && plan::fresh(n, k) && b == (
        #[trigger] plan::search(t, n, g, 0, 3)).1.score;
    plan::lemma_fresh_starts(m, n, k);
    search::law_lone_searches_are_repeatable(s, t, m, n, worth, false, true, quick(), g, 0);
}

/// The balance of a game that is on is what a search three plies deep makes of it, by the
/// evaluation given and within a window that holds it; unless the game is decided sooner,
/// or some depth scores outside the full window.
pub proof fn law_balances_look_three_plies_ahead(
    worth: spec_fn(Game) -> int,
    g: Game,
    score: int,
)
    requires
        balance(worth, g, score),
        g.board.len() == 64,
        rules::outcome(g) is None,
    ensures
        ({
            ||| score >= 29_000
            ||| score <= -29_000
            ||| exists|s: Setup, n: Mind, lo: int, hi: int|
                {
                    let (n1, v) = #[trigger] plan::negamax(s, n, g, 0, 3, lo, hi, 0, true);
                    &&& s.worth == worth
                    &&& !n1.aborted
                    &&& lo < v < hi
                    &&& v == score
                }
            ||| exists|s: Setup, n: Mind, d: int|
                s.worth == worth && plan::outside_the_window(
                    (#[trigger] plan::negamax(s, n, g, 0, d, -32_000, 32_000, 0, true)).1,
                )
        }),
{
    let (s, m) = choose|s: Setup, m: Mind|
        search::suits(s, worth, false, true, quick(), true) && plan::fresh(
            m,
            search::table_size(1),
        ) && score == (#[trigger] plan::search(s, m, g, 0, 3)).1.score;
    laws::law_a_king_always_has_a_move(g);
    plan::law_lone_searches_are_undisturbed(s, plan::begun(m), plan::search(s, m, g, 0, 3).0);
    plan::law_the_last_depth_is_reached(s, m, g, 0, 3);
    if plan::search(s, m, g, 0, 3).1.depth == 3 {
        minimax::law_results_are_root_scores(s, m, g, 0, 3);
    }
}

proof fn lemma_opening_repeats(
    worth: spec_fn(Game) -> int,
    lo: int,
    hi: int,
    reject: int,
    state: u64,
    k: nat,
    s: Seq<int>,
    t: Seq<int>,
)
    requires
        measured(worth, lo, hi, reject, state, k, s),
        measured(worth, lo, hi, reject, state, k, t),
    ensures
        opening(lo, hi, reject, state, k, s) == opening(lo, hi, reject, state, k, t),
    decreases k,
{
    if k > 0 {
        let (w, after) = opened(lo, hi, state);
        match w {
            None => {
                lemma_opening_repeats(worth, lo, hi, reject, after, (k - 1) as nat, s, t);
            },
            Some(g) => {
                law_balances_are_repeatable(worth, g, s[0], t[0]);
                if !fair(s[0], reject) {
                    lemma_opening_repeats(
                        worth,
                        lo,
                        hi,
                        reject,
                        after,
                        (k - 1) as nat,
                        s.skip(1),
                        t.skip(1),
                    );
                }
            },
        }
    }
}

/// The random numbers fix the opening, and what is left of them.
pub proof fn law_openings_are_repeatable<E: Judge>(
    cfg: SelfPlayConfig<E>,
    before: u64,
    s: Seq<int>,
    g: Game,
    x: u64,
    t: Seq<int>,
    h: Game,
    y: u64,
)
    requires
        opens(cfg, before, s, g, x),
        opens(cfg, before, t, h, y),
    ensures
        g == h,
        x == y,
{
    lemma_opening_repeats(
        search::worth_of(cfg.evaluator),
        cfg.opening_plies_min as int,
        cfg.opening_plies_max as int,
        cfg.opening_reject_cp as int,
        before,
        24,
        s,
        t,
    );
}

/// From `g` the legal moves `ms` lead to `h`, and the game is on all the way.
pub open spec fn leads_to(g: Game, ms: Seq<Move>, h: Game) -> bool
    decreases ms.len(),
{
    if ms.len() == 0 {
        g == h
    } else {
        &&& rules::outcome(g) is None
        &&& rules::legal(g, ms[0].src(), ms[0].dst())
        &&& leads_to(rules::apply(g, ms[0].src(), ms[0].dst()), ms.skip(1), h)
    }
}

proof fn lemma_walk(g: Game, state: u64, n: nat) -> (ms: Seq<Move>)
    requires
        g.board.len() == 64,
    ensures
        walk(g, state, n).0 matches Some(h) ==> ms.len() == n && leads_to(g, ms, h),
    decreases n,
{
    let l = plan::considered(g, GenMode::Search);
    if n > 0 && rules::outcome(g) is None && l.len() > 0 {
        let i = draw(state, l.len() as int);
        let m = l[i];
        let h = plan::next(g, m);
        assert(rules::legal(g, m.src(), m.dst())) by {
            laws::law_generated_members(g, GenMode::Search);
            assert(movegen::generated(g, GenMode::Search)[i] == m);
            assert(movegen::generated(g, GenMode::Search).contains(m));
        }
        reveal(plan::next);
        let rest = lemma_walk(h, drawn(state), (n - 1) as nat);
        let ms = seq![m] + rest;
        assert(ms.skip(1) =~= rest);
        ms
    } else {
        Seq::empty()
    }
}

proof fn lemma_opening_is_fair(
    worth: spec_fn(Game) -> int,
    lo: int,
    hi: int,
    reject: int,
    state: u64,
    k: nat,
    scores: Seq<int>,
)
    requires
        0 <= lo,
        measured(worth, lo, hi, reject, state, k, scores),
        opening(lo, hi, reject, state, k, scores).0 != fen::start_game(),
    ensures
        ({
            let g = opening(lo, hi, reject, state, k, scores).0;
            &&& rules::outcome(g) is None
            &&& exists|score: int| #[trigger]
                balance(worth, g, score) && -reject <= score <= reject
            &&& exists|ms: Seq<Move>| #[trigger]
                leads_to(fen::start_game(), ms, g) && lo <= ms.len() && (ms.len() <= hi
                    || ms.len() == lo)
        }),
    decreases k,
{
    let (w, after) = opened(lo, hi, state);
    if k > 0 {
        match w {
            None => {
                lemma_opening_is_fair(worth, lo, hi, reject, after, (k - 1) as nat, scores);
            },
            Some(g) => {
                if fair(scores[0], reject) {
                    let span = if hi > lo {
                        hi - lo + 1
                    } else {
                        1
                    };
                    let n = (lo + draw(state, span)) as nat;
                    let ms = lemma_walk(fen::start_game(), drawn(state), n);
                    assert(leads_to(fen::start_game(), ms, g));
                } else {
                    lemma_opening_is_fair(
                        worth,
                        lo,
                        hi,
                        reject,
                        after,
                        (k - 1) as nat,
                        scores.skip(1),
                    );
                }
            },
        }
    }
}

/// An opening is the start of the game, or a position still in play that as many legal
/// moves lead to as asked for and that a quick search finds no more lopsided than asked
/// for.
pub proof fn law_openings_are_fair<E: Judge>(
    cfg: SelfPlayConfig<E>,
    before: u64,
    scores: Seq<int>,
    g: Game,
    after: u64,
)
    requires
        opens(cfg, before, scores, g, after),
    ensures
        g == fen::start_game() || {
            &&& rules::outcome(g) is None
            &&& exists|score: int| #[trigger]
                balance(search::worth_of(cfg.evaluator), g, score) && -cfg.opening_reject_cp
                    <= score <= cfg.opening_reject_cp
            &&& exists|ms: Seq<Move>| #[trigger]
                leads_to(fen::start_game(), ms, g) && cfg.opening_plies_min <= ms.len() && (
                ms.len() <= cfg.opening_plies_max || ms.len() == cfg.opening_plies_min)
        },
{
    if g != fen::start_game() {
        lemma_opening_is_fair(
            search::worth_of(cfg.evaluator),
            cfg.opening_plies_min as int,
            cfg.opening_plies_max as int,
            cfg.opening_reject_cp as int,
            before,
            24,
            scores,
        );
    }
}

/// A walk takes its moves by the random numbers: from a position in play it goes on with
/// the move of the search list that the next number, modulo their count, points at.
pub proof fn law_walks_follow_the_random_numbers(g: Game, state: u64, n: nat)
    requires
        n > 0,
        rules::outcome(g) is None,
        plan::considered(g, GenMode::Search).len() > 0,
    ensures
        ({
            let l = plan::considered(g, GenMode::Search);
            let st = state.wrapping_add(0x9E3779B97F4A7C15);
            let m = l[tables::splitmix(st) as int % (l.len() as int)];
            walk(g, state, n) == walk(rules::apply(g, m.src(), m.dst()), st, (n - 1) as nat)
        }),
        walk(g, state, 0) == (Some(g), state),
{
    reveal(plan::next);
}

/// A walk comes to nothing only where a game ends on the way.
proof fn lemma_walk_fails(g: Game, state: u64, n: nat) -> (r: (Seq<Move>, Game))
    requires
        g.board.len() == 64,
    ensures
        walk(g, state, n).0 is None ==> leads_to(g, r.0, r.1) && r.0.len() < n && rules::outcome(
            r.1,
        ) is Some,
    decreases n,
{
    let l = plan::considered(g, GenMode::Search);
    if n > 0 && rules::outcome(g) is None {
        laws::law_a_king_always_has_a_move(g);
        let i = draw(state, l.len() as int);
        let m = l[i];
        assert(rules::legal(g, m.src(), m.dst())) by {
            laws::law_generated_members(g, GenMode::Search);
            assert(movegen::generated(g, GenMode::Search)[i] == m);
            assert(movegen::generated(g, GenMode::Search).contains(m));
        }
        reveal(plan::next);
        let (ms, h) = lemma_walk_fails(plan::next(g, m), drawn(state), (n - 1) as nat);
        let all = seq![m] + ms;
        assert(all.skip(1) =~= ms);
        (all, h)
    } else {
        (Seq::empty(), g)
    }
}

/// A try at an opening fails only where the game ends within it.
pub proof fn law_tries_fail_only_at_the_end_of_a_game(lo: int, hi: int, state: u64)
    requires
        0 <= lo,
        opened(lo, hi, state).0 is None,
    ensures
        exists|ms: Seq<Move>, h: Game| #[trigger]
            leads_to(fen::start_game(), ms, h) && rules::outcome(h) is Some && (ms.len() <= lo
                || ms.len() <= hi),
{
    let span = if hi > lo {
        hi - lo + 1
    } else {
        1
    };
    let n = (lo + draw(state, span)) as nat;
    let w = walk(fen::start_game(), drawn(state), n).0;
    if let Some(h) = w {
        let ms = lemma_walk(fen::start_game(), drawn(state), n);
        assert(leads_to(fen::start_game(), ms, h));
    } else {
        let (ms, h) = lemma_walk_fails(fen::start_game(), drawn(state), n);
        assert(leads_to(fen::start_game(), ms, h));
    }
}

/// The random numbers after `k` tries at an opening.
pub open spec fn after_tries(lo: int, hi: int, state: u64, k: nat) -> u64
    decreases k,
{
    if k == 0 {
        state
    } else {
        opened(lo, hi, after_tries(lo, hi, state, (k - 1) as nat)).1
    }
}

/// The try made with the random numbers from `state` on is turned down: it came to
/// nothing, or a quick search finds it too lopsided.
pub open spec fn turned_down(
    worth: spec_fn(Game) -> int,
    lo: int,
    hi: int,
    reject: int,
    state: u64,
) -> bool {
    match opened(lo, hi, state).0 {
        None => true,
        Some(g) => exists|score: int| #[trigger]
            balance(worth, g, score) && (score > reject || score < -reject),
    }
}

proof fn lemma_tries(
    worth: spec_fn(Game) -> int,
    lo: int,
    hi: int,
    reject: int,
    first: u64,
    i: nat,
    k: nat,
    scores: Seq<int>,
) -> (n: nat)
    requires
        measured(worth, lo, hi, reject, after_tries(lo, hi, first, i), k, scores),
        forall|j: nat|
            j < i ==> #[trigger] turned_down(
                worth,
                lo,
                hi,
                reject,
                after_tries(lo, hi, first, j),
            ),
    ensures
        i <= n <= i + k,
        forall|j: nat|
            j < n ==> #[trigger] turned_down(
                worth,
                lo,
                hi,
                reject,
                after_tries(lo, hi, first, j),
            ),
        ({
            let (g, after) = opening(lo, hi, reject, after_tries(lo, hi, first, i), k, scores);
            if n == i + k {
                g == fen::start_game() && after == after_tries(lo, hi, first, n)
            } else {
                &&& opened(lo, hi, after_tries(lo, hi, first, n)) == (Some(g), after)
                &&& exists|score: int| #[trigger]
                    balance(worth, g, score) && -reject <= score <= reject
            }
        }),
    decreases k,
{
    let state = after_tries(lo, hi, first, i);
    if k == 0 {
        i
    } else {
        let (w, after) = opened(lo, hi, state);
        assert(after == after_tries(lo, hi, first, i + 1));
        match w {
            None => {
                assert(turned_down(worth, lo, hi, reject, state));
                lemma_tries(worth, lo, hi, reject, first, i + 1, (k - 1) as nat, scores)
            },
            Some(g) => {
                if fair(scores[0], reject) {
                    i
                } else {
                    assert(balance(worth, g, scores[0]));
                    assert(turned_down(worth, lo, hi, reject, state));
                    lemma_tries(
                        worth,
                        lo,
                        hi,
                        reject,
                        first,
                        i + 1,
                        (k - 1) as nat,
                        scores.skip(1),
                    )
                }
            },
        }
    }
}

/// The opening is the first of up to 24 tries that is not turned down; only where all of
/// them are is it the start of the game.
pub proof fn law_the_first_fair_try_is_taken<E: Judge>(
    cfg: SelfPlayConfig<E>,
    before: u64,
    scores: Seq<int>,
    g: Game,
    after: u64,
) -> (n: nat)
    requires
        opens(cfg, before, scores, g, after),
    ensures
        ({
            let (lo, hi) = (cfg.opening_plies_min as int, cfg.opening_plies_max as int);
            let reject = cfg.opening_reject_cp as int;
            let worth = search::worth_of(cfg.evaluator);
            &&& n <= 24
            &&& forall|j: nat|
                j < n ==> #[trigger] turned_down(
                    worth,
                    lo,
                    hi,
                    reject,
                    after_tries(lo, hi, before, j),
                )
            &&& n < 24 ==> opened(lo, hi, after_tries(lo, hi, before, n)) == (Some(g), after)
            &&& n == 24 ==> g == fen::start_game() && after == after_tries(lo, hi, before, 24)
        }),
{
    let (lo, hi) = (cfg.opening_plies_min as int, cfg.opening_plies_max as int);
    lemma_tries(
        search::worth_of(cfg.evaluator),
        lo,
        hi,
        cfg.opening_reject_cp as int,
        before,
        0,
        24,
        scores,
    )
}

/// A position as it comes up in play from the start: consistent, keyed, and with no more
/// than 32 pieces.
pub open spec fn in_play(pos: Position) -> bool {
    &&& pos.wf()
    &&& pos.drift() == 0
    &&& bits::popcount(pos.occ) <= 32
}

proof fn lemma_crowd(pos: Position)
    requires
        pos.wf(),
    ensures
        bits::popcount(pos.occ) == laws::crowd(pos@),
{
    bits::lemma_count_ext(
        |s: int| bits::bit(pos.occ, s),
        |s: int| rules::occupied(pos@, s),
        64,
    );
}

/// The start of a game.
fn fresh_board() -> (pos: Position)
    ensures
        in_play(pos),
        pos@ == fen::start_game(),
{
    let pos = Position::startpos();
    proof {
        let k = rules::game_key(pos@);
        assert(k ^ k == 0) by (bit_vector);
        lemma_crowd(pos);
        let p = |s: int| rules::occupied(pos@, s);
        bits::lemma_count_bounds(p, 16);
        bits::lemma_count_gap(p, 16, 48);
        reveal_with_fuel(bits::count_below, 17);
    }
    pos
}

/// The position after a move of the search list.
fn played(pos: &Position, mv: Move) -> (child: Position)
    requires
        in_play(*pos),
        pos.ply < 200,
        plan::considered(pos@, GenMode::Search).contains(mv),
    ensures
        in_play(child),
        child@ == plan::next(pos@, mv),
{
    let ghost g = pos@;
    proof {
        plan::lemma_considered_playable(g, GenMode::Search);
        let ms = plan::considered(g, GenMode::Search);
        let k = choose|k: int| 0 <= k < ms.len() && ms[k] == mv;
        assert(plan::can_play(g, ms[k]));
        reveal(plan::can_play);
        reveal(plan::next);
        laws::law_the_board_only_thins_out(g, mv.src(), mv.dst());
    }
    let (child, _) = pos.after(mv);
    proof {
        lemma_crowd(*pos);
        lemma_crowd(child);
    }
    child
}

/// Plays random plies from the start position; nothing if the game ends before.
pub fn random_walk(n: usize, rng: &mut SplitMix64) -> (r: Option<Position>)
    ensures
        (match r {
            Some(pos) => Some(pos@),
            None => None,
        }, final(rng).state()) == walk(fen::start_game(), old(rng).state(), n as nat),
        r matches Some(pos) ==> in_play(pos),
{
    let mut pos = fresh_board();
    let mut i: usize = 0;
    while i < n
        invariant
            i <= n,
            in_play(pos),
            walk(fen::start_game(), old(rng).state(), n as nat) == walk(
                pos@,
                rng.state(),
                (n - i) as nat,
            ),
        decreases n - i,
    {
        if pos.result().is_some() {
            return None;
        }
        let mut list = MoveList::new();
        generate(&pos, GenMode::Search, &mut list);
        if list.is_empty() {
            return None;
        }
        let k: usize = rng.below(list.len());
        let mv: Move = list.moves[k];
        assert(mv == plan::considered(pos@, GenMode::Search)[k as int]);
        pos = played(&pos, mv);
        i += 1;
    }
    Some(pos)
}

/// Plays random plies from the start position, rejecting lopsided openings.
pub fn random_opening<E: Judge + Copy>(cfg: &SelfPlayConfig<E>, rng: &mut SplitMix64) -> (r:
    Position)
    requires
        cfg.wf(),
    ensures
        in_play(r),
        exists|scores: Seq<int>| #[trigger]
            opens(*cfg, old(rng).state(), scores, r@, final(rng).state()),
{
    let ghost worth = search::worth_of(cfg.evaluator);
    let ghost (lo, hi) = (cfg.opening_plies_min as int, cfg.opening_plies_max as int);
    let ghost reject = cfg.opening_reject_cp as int;
    let ghost st0 = rng.state();
    let ghost mut scores: Seq<int> = Seq::empty();
    let span: usize = if cfg.opening_plies_max > cfg.opening_plies_min {
        cfg.opening_plies_max - cfg.opening_plies_min + 1
    } else {
        1
    };
    proof {
        assert forall|rest: Seq<int>| #[trigger] (scores + rest) == rest by {
            assert(scores + rest =~= rest);
        }
    }
    let mut k: usize = 0;
    while k < 24
        invariant
            cfg.wf(),
            worth == search::worth_of(cfg.evaluator),
            lo == cfg.opening_plies_min,
            hi == cfg.opening_plies_max,
            reject == cfg.opening_reject_cp,
            st0 == old(rng).state(),
            k <= 24,
            span == (if hi > lo {
                hi - lo + 1
            } else {
                1
            }),
            forall|rest: Seq<int>|
                opening(lo, hi, reject, st0, 24, #[trigger] (scores + rest)) == opening(
                    lo,
                    hi,
                    reject,
                    rng.state(),
                    (24 - k) as nat,
                    rest,
                ),
            forall|rest: Seq<int>|
                measured(worth, lo, hi, reject, rng.state(), (24 - k) as nat, rest) ==> measured(
                    worth,
                    lo,
                    hi,
                    reject,
                    st0,
                    24,
                    #[trigger] (scores + rest),
                ),
        decreases 24 - k,
    {
        let ghost st = rng.state();
        let ghost left = (24 - k) as nat;
        let drew: usize = rng.below(span);
        let n: usize = cfg.opening_plies_min + drew;
        let walked: Option<Position> = random_walk(n, rng);
        let ghost after = rng.state();
        let mut found: Option<Position> = None;
        if let Some(pos) = walked {
            if pos.result().is_none() {
                found = Some(pos);
            }
        }
        assert(opened(lo, hi, st) == (match found {
            Some(pos) => Some(pos@),
            None => None,
        }, after));
        if let Some(pos) = found {
            let mut options = SearchOptions::with_evaluator(cfg.evaluator);
            options.tt_megabytes = 1;
            let mut probe = Searcher::unshared(options);
            let ghost m = probe.mind();
            let r = probe.search(&pos, &SearchLimits::depth(3));
            let ghost score = r.score as int;
            let ghost done = scores;
            proof {
                assert(search::suits(probe.setup(), worth, false, true, quick(), true));
                assert(plan::search(probe.setup(), m, pos@, 0, 3).1.score == score);
                assert(balance(worth, pos@, score));
                scores = done.push(score);
                assert forall|rest: Seq<int>|
                    opening(lo, hi, reject, st0, 24, #[trigger] (scores + rest)) == (if fair(
                        score,
                        reject,
                    ) {
                        (pos@, after)
                    } else {
                        opening(lo, hi, reject, after, (left - 1) as nat, rest)
                    }) && ((fair(score, reject) || measured(
                        worth,
                        lo,
                        hi,
                        reject,
                        after,
                        (left - 1) as nat,
                        rest,
                    )) ==> measured(worth, lo, hi, reject, st0, 24, scores + rest)) by {
                    let longer = seq![score] + rest;
                    assert(done + longer =~= scores + rest);
                    assert(longer.skip(1) =~= rest);
                    assert(longer[0] == score);
                }
            }
            let size: i32 = if r.score < 0 {
                -r.score
            } else {
                r.score
            };
            if size <= cfg.opening_reject_cp {
                proof {
                    assert(opens(*cfg, st0, scores + Seq::<int>::empty(), pos@, after));
                }
                return pos;
            }
        }
        k += 1;
    }
    let pos = fresh_board();
    proof {
        let none = Seq::<int>::empty();
        assert(opens(*cfg, st0, scores + none, pos@, rng.state()));
    }
    pos
}

// ---------------------------------------------------------------------------
// Games
// ---------------------------------------------------------------------------

/// A position worth learning from.
pub struct Lesson {
    pub game: Game,
    pub score: int,
    pub quiet: bool,
}

/// What a game leaves behind.
pub struct Log {
    pub lessons: Seq<Lesson>,
    /// Nodes searched, modulo 2^64.
    pub nodes: u64,
    pub plies: int,
    /// What the searcher remembers.
    pub mind: Mind,
}

/// Scores near the terminal bounds carry no evaluation signal — they are search facts,
/// not position judgements.
pub open spec fn usable(score: int) -> bool {
    -29_000 < score < 29_000
}

/// The log after one more ply.
pub open spec fn logged(log: Log, quiet_only: bool, g: Game, mind: Mind, run: Run) -> Log {
    let quiet = !plan::loud(g, run.best);
    Log {
        lessons: if usable(run.score) && (quiet || !quiet_only) {
            log.lessons.push(Lesson { game: g, score: run.score, quiet })
        } else {
            log.lessons
        },
        nodes: log.nodes.wrapping_add(run.nodes),
        plies: log.plies + 1,
        mind,
    }
}

/// From `g` on, with `log` behind, the game goes like this: each ply is what a search
/// finds, until the game has a result; `end` is the log then.
pub open spec fn game_goes<E: Judge>(
    options: SearchOptions<E>,
    alone: bool,
    limits: SearchLimits,
    quiet_only: bool,
    setups: Seq<Setup>,
    g: Game,
    log: Log,
    end: Log,
    result: GameResult,
) -> bool
    decreases setups.len(),
{
    match rules::outcome(g) {
        Some(r) => setups.len() == 0 && end == log && result == r,
        None => {
            &&& setups.len() > 0
            &&& search::suits(
                setups[0],
                search::worth_of(options.evaluator),
                options.use_null_move,
                options.use_lmr,
                limits,
                alone,
            )
            &&& {
                let (mind, run) = plan::search(
                    setups[0],
                    log.mind,
                    g,
                    0,
                    search::last_depth(limits),
                );
                game_goes(
                    options,
                    alone,
                    limits,
                    quiet_only,
                    setups.skip(1),
                    plan::next(g, run.best),
                    logged(log, quiet_only, g, mind, run),
                    end,
                    result,
                )
            }
        },
    }
}

/// The lessons carry an evaluation signal, and are quiet where only quiet ones are wanted.
pub open spec fn worthwhile(l: Seq<Lesson>, quiet_only: bool) -> bool {
    forall|i: int|
        0 <= i < l.len() ==> usable((#[trigger] l[i]).score) && (quiet_only ==> l[i].quiet)
}

/// Whatever the searches find, only worthwhile positions are kept, and no more than one
/// for each ply.
pub proof fn law_only_worthwhile_lessons_are_kept<E: Judge>(
    options: SearchOptions<E>,
    alone: bool,
    limits: SearchLimits,
    quiet_only: bool,
    setups: Seq<Setup>,
    g: Game,
    log: Log,
    end: Log,
    result: GameResult,
)
    requires
        game_goes(options, alone, limits, quiet_only, setups, g, log, end, result),
        worthwhile(log.lessons, quiet_only),
        log.lessons.len() <= log.plies,
    ensures
        worthwhile(end.lessons, quiet_only),
        end.lessons.len() <= end.plies,
        end.plies == log.plies + setups.len(),
    decreases setups.len(),
{
    if rules::outcome(g) is None {
        let (mind, run) = plan::search(setups[0], log.mind, g, 0, search::last_depth(limits));
        law_only_worthwhile_lessons_are_kept(
            options,
            alone,
            limits,
            quiet_only,
            setups.skip(1),
            plan::next(g, run.best),
            logged(log, quiet_only, g, mind, run),
            end,
            result,
        );
    }
}

/// The record of a lesson, labelled with the result of its game.
pub open spec fn teaches(s: Sample, l: Lesson, result: GameResult) -> bool {
    &&& s.result == data::result_sign(result)
    &&& (Sample { result: 0, ..s }).records(l.game, l.score, l.quiet)
}

/// The counts of one game.
pub open spec fn counted(end: Log, result: GameResult) -> SelfPlayStats {
    SelfPlayStats {
        games: 1,
        white_wins: if result == GameResult::Win(Color::White) {
            1
        } else {
            0
        },
        black_wins: if result == GameResult::Win(Color::Black) {
            1
        } else {
            0
        },
        draws: if result == GameResult::Draw {
            1
        } else {
            0
        },
        positions_seen: end.plies as u64,
        positions_kept: end.lessons.len() as u64,
        nodes: end.nodes,
        plies: end.plies as u64,
    }
}

/// Nothing has been played yet.
pub open spec fn new_log(mind: Mind) -> Log {
    Log { lessons: Seq::empty(), nodes: 0, plies: 0, mind }
}

/// What can come of playing a game from an opening, with a searcher that remembers
/// nothing in a table of `n` entries.
pub open spec fn comes_of<E: Judge>(
    options: SearchOptions<E>,
    alone: bool,
    limits: SearchLimits,
    quiet_only: bool,
    n: int,
    g: Game,
    setups: Seq<Setup>,
    mind: Mind,
    end: Log,
    samples: Seq<Sample>,
    result: GameResult,
    stats: SelfPlayStats,
) -> bool {
    &&& plan::fresh(mind, n)
    &&& game_goes(options, alone, limits, quiet_only, setups, g, new_log(mind), end, result)
    &&& end.plies <= 200
    &&& samples.len() == end.lessons.len()
    &&& forall|i: int|
        0 <= i < samples.len() ==> teaches(#[trigger] samples[i], end.lessons[i], result)
    &&& stats == counted(end, result)
}

/// Ply `k` of a game: its position, the memory before and after the search of that very
/// position, what the search found, and the position after the move it named.
#[verifier::opaque]
pub open spec fn ply_played<E: Judge>(
    options: SearchOptions<E>,
    alone: bool,
    limits: SearchLimits,
    setup: Setup,
    g: Game,
    before: Mind,
    run: Run,
    after: Mind,
    h: Game,
) -> bool {
    &&& rules::outcome(g) is None
    &&& setup.worth == search::worth_of(options.evaluator)
    &&& setup.node_limit == limits.nodes
    &&& setup.deadline == search::time_limit(limits)
    &&& setup.alone == alone
    &&& (after, run) == plan::search(setup, before, g, 0, search::last_depth(limits))
    &&& h == rules::apply(g, run.best.src(), run.best.dst())
}

/// The move destroys nothing, not even itself.
pub open spec fn harmless(g: Game, mv: Move) -> bool {
    &&& !rules::dies(g, mv.src(), mv.dst())
    &&& forall|s: int| !#[trigger] rules::hits(g, mv.src(), mv.dst(), s)
}

/// A ply that leaves a lesson: its score is no search fact near the terminal bounds, and
/// its move is harmless where only quiet positions are wanted.
pub open spec fn leaves_lesson(g: Game, run: Run, quiet_only: bool) -> bool {
    -29_000 < run.score < 29_000 && (quiet_only ==> harmless(g, run.best))
}

/// The plies of a game, and which of them left a lesson.
pub struct Course {
    pub games: Seq<Game>,
    pub minds: Seq<Mind>,
    pub runs: Seq<Run>,
    /// The plies with a lesson, in order.
    pub at: Seq<int>,
}

/// The nodes of the searches added to `n`, modulo 2^64.
pub open spec fn nodes_added(n: u64, runs: Seq<Run>) -> u64
    decreases runs.len(),
{
    if runs.len() == 0 {
        n
    } else {
        nodes_added(n.wrapping_add(runs[0].nodes), runs.skip(1))
    }
}

/// The course of a game from `g` on: each ply follows from the one before.
#[verifier::opaque]
pub open spec fn course_of<E: Judge>(
    c: Course,
    options: SearchOptions<E>,
    alone: bool,
    limits: SearchLimits,
    quiet_only: bool,
    setups: Seq<Setup>,
    g: Game,
    mind: Mind,
    result: GameResult,
) -> bool {
    &&& c.games.len() == setups.len() + 1
    &&& c.minds.len() == setups.len() + 1
    &&& c.runs.len() == setups.len()
    &&& c.games[0] == g
    &&& c.minds[0] == mind
    &&& rules::outcome(c.games.last()) == Some(result)
    &&& forall|k: int|
        #![trigger c.runs[k]]
        0 <= k < setups.len() ==> ply_played(
            options,
            alone,
            limits,
            setups[k],
            c.games[k],
            c.minds[k],
            c.runs[k],
            c.minds[k + 1],
            c.games[k + 1],
        )
    &&& forall|i: int| 0 <= i < c.at.len() ==> 0 <= #[trigger] c.at[i] < setups.len()
    &&& forall|i: int, j: int| 0 <= i < j < c.at.len() ==> #[trigger] c.at[i] < #[trigger] c.at[j]
    &&& forall|k: int|
        #![trigger c.at.contains(k)]
        0 <= k < setups.len() ==> (c.at.contains(k) <==> leaves_lesson(
            c.games[k],
            c.runs[k],
            quiet_only,
        ))
}

proof fn lemma_course_begins<E: Judge>(
    c: Course,
    options: SearchOptions<E>,
    alone: bool,
    limits: SearchLimits,
    quiet_only: bool,
    setups: Seq<Setup>,
    g: Game,
    mind: Mind,
    run: Run,
    result: GameResult,
) -> (d: Course)
    requires
        setups.len() > 0,
        course_of(
            c,
            options,
            alone,
            limits,
            quiet_only,
            setups.skip(1),
            c.games[0],
            c.minds[0],
            result,
        ),
        ply_played(
            options,
            alone,
            limits,
            setups[0],
            g,
            mind,
            run,
            c.minds[0],
            c.games[0],
        ),
    ensures
        course_of(d, options, alone, limits, quiet_only, setups, g, mind, result),
        d.runs == seq![run] + c.runs,
        leaves_lesson(g, run, quiet_only) ==> d.at.len() == c.at.len() + 1 && d.at[0] == 0
            && d.games[0] == g && d.runs[0] == run && forall|i: int|
            0 <= i < c.at.len() ==> d.games[d.at[i + 1]] == c.games[#[trigger] c.at[i]]
                && d.runs[d.at[i + 1]] == c.runs[c.at[i]],
        !leaves_lesson(g, run, quiet_only) ==> d.at.len() == c.at.len() && forall|i: int|
            0 <= i < c.at.len() ==> d.games[d.at[i]] == c.games[#[trigger] c.at[i]]
                && d.runs[d.at[i]] == c.runs[c.at[i]],
{
    reveal(course_of);
    let later = Seq::new(c.at.len(), |i: int| c.at[i] + 1);
    let first = leaves_lesson(g, run, quiet_only);
    let d = Course {
        games: seq![g] + c.games,
        minds: seq![mind] + c.minds,
        runs: seq![run] + c.runs,
        at: if first {
            seq![0int] + later
        } else {
            later
        },
    };
    let rest = setups.skip(1);
    assert forall|i: int| 0 <= i < c.at.len() implies 0 <= #[trigger] c.at[i] < rest.len() by {}
    assert forall|k: int|
        #![trigger d.runs[k]]
        0 <= k < setups.len() implies ply_played(
        options,
        alone,
        limits,
        setups[k],
        d.games[k],
        d.minds[k],
        d.runs[k],
        d.minds[k + 1],
        d.games[k + 1],
    ) by {
        if k > 0 {
            assert(rest[k - 1] == setups[k]);
            assert(d.runs[k] == c.runs[k - 1]);
        }
    }
    assert forall|i: int| 0 <= i < d.at.len() implies 0 <= #[trigger] d.at[i] < setups.len() by {
        if first {
            if i > 0 {
                assert(d.at[i] == c.at[i - 1] + 1);
            }
        } else {
            assert(d.at[i] == c.at[i] + 1);
        }
    }
    assert forall|i: int, j: int| 0 <= i < j < d.at.len() implies #[trigger] d.at[i]
        < #[trigger] d.at[j] by {
        if first {
            assert(d.at[j] == c.at[j - 1] + 1);
            if i > 0 {
                assert(d.at[i] == c.at[i - 1] + 1);
            }
        } else {
            assert(d.at[i] == c.at[i] + 1 && d.at[j] == c.at[j] + 1);
        }
    }
    assert forall|k: int|
        #![trigger d.at.contains(k)]
        0 <= k < setups.len() implies (d.at.contains(k) <==> leaves_lesson(
        d.games[k],
        d.runs[k],
        quiet_only,
    )) by {
        let shift: int = if first {
            1
        } else {
            0
        };
        if k == 0 {
            if first {
                assert(d.at[0] == 0);
            } else if d.at.contains(0) {
                let i = choose|i: int| 0 <= i < d.at.len() && d.at[i] == 0;
                assert(d.at[i] == c.at[i] + 1);
            }
        } else {
            assert(c.at.contains(k - 1) <==> leaves_lesson(
                c.games[k - 1],
                c.runs[k - 1],
                quiet_only,
            ));
            if c.at.contains(k - 1) {
                let i = choose|i: int| 0 <= i < c.at.len() && c.at[i] == k - 1;
                assert(d.at[i + shift] == k);
            }
            if d.at.contains(k) {
                let i = choose|i: int| 0 <= i < d.at.len() && d.at[i] == k;
                assert(d.at[i] == c.at[i - shift] + 1);
            }
        }
    }
    assert forall|i: int| 0 <= i < c.at.len() implies {
        let j = if first {
            i + 1
        } else {
            i
        };
        d.games[d.at[j]] == c.games[#[trigger] c.at[i]] && d.runs[d.at[j]] == c.runs[c.at[i]]
    } by {
        let j = if first {
            i + 1
        } else {
            i
        };
        assert(d.at[j] == c.at[i] + 1);
    }
    assert(d.games.last() == c.games.last());
    d
}

proof fn lemma_course<E: Judge>(
    options: SearchOptions<E>,
    alone: bool,
    limits: SearchLimits,
    quiet_only: bool,
    setups: Seq<Setup>,
    g: Game,
    log: Log,
    end: Log,
    result: GameResult,
) -> (c: Course)
    requires
        game_goes(options, alone, limits, quiet_only, setups, g, log, end, result),
    ensures
        course_of(c, options, alone, limits, quiet_only, setups, g, log.mind, result),
        end.lessons.len() == log.lessons.len() + c.at.len(),
        forall|i: int| 0 <= i < log.lessons.len() ==> #[trigger] end.lessons[i] == log.lessons[i],
        forall|i: int|
            0 <= i < c.at.len() ==> end.lessons[log.lessons.len() + i] == (Lesson {
                game: c.games[#[trigger] c.at[i]],
                score: c.runs[c.at[i]].score,
                quiet: harmless(c.games[c.at[i]], c.runs[c.at[i]].best),
            }),
        end.plies == log.plies + setups.len(),
        end.nodes == nodes_added(log.nodes, c.runs),
    decreases setups.len(),
{
    if rules::outcome(g) is Some {
        let c = Course {
            games: seq![g],
            minds: seq![log.mind],
            runs: Seq::empty(),
            at: Seq::empty(),
        };
        assert(course_of(c, options, alone, limits, quiet_only, setups, g, log.mind, result)) by {
            reveal(course_of);
        }
        c
    } else {
        let (m, run) = plan::search(setups[0], log.mind, g, 0, search::last_depth(limits));
        let h = plan::next(g, run.best);
        let log1 = logged(log, quiet_only, g, m, run);
        let rest = setups.skip(1);
        assert(game_goes(options, alone, limits, quiet_only, rest, h, log1, end, result));
        assert(ply_played(options, alone, limits, setups[0], g, log.mind, run, m, h)) by {
            reveal(ply_played);
            reveal(plan::next);
        }
        let c = lemma_course(options, alone, limits, quiet_only, rest, h, log1, end, result);
        assert(c.games[0] == h && c.minds[0] == m) by {
            reveal(course_of);
        }
        let d = lemma_course_begins(
            c,
            options,
            alone,
            limits,
            quiet_only,
            setups,
            g,
            log.mind,
            run,
            result,
        );
        assert(d.runs.skip(1) =~= c.runs);
        let n = log.lessons.len() as int;
        let first = leaves_lesson(g, run, quiet_only);
        assert(plan::loud(g, run.best) == !harmless(g, run.best));
        assert(log1.lessons.len() == n + if first {
            1int
        } else {
            0
        });
        assert forall|i: int| 0 <= i < n implies #[trigger] end.lessons[i] == log.lessons[i] by {
            assert(log1.lessons[i] == log.lessons[i]);
        }
        if first {
            assert(end.lessons[n] == log1.lessons[n]);
        }
        assert forall|i: int| 0 <= i < d.at.len() implies end.lessons[n + i] == (Lesson {
            game: d.games[#[trigger] d.at[i]],
            score: d.runs[d.at[i]].score,
            quiet: harmless(d.games[d.at[i]], d.runs[d.at[i]].best),
        }) by {
            if first {
                if i > 0 {
                    let x = c.at[i - 1];
                    assert(end.lessons[n + 1 + (i - 1)].game == c.games[x]);
                }
            } else {
                let x = c.at[i];
                assert(end.lessons[n + i].game == c.games[x]);
            }
        }
        d
    }
}

/// Every record of a self-play game stands for a position of that game, and carries the
/// score that the search of that very position found for the side to move, unchanged; it
/// tells whose turn it was, whether the move was harmless, and who won, as +1 for White
/// and -1 for Black. The records come in the order of the game, one for each ply that
/// leaves a lesson. The counts are those of the game.
pub proof fn law_records_carry_their_searches<E: Judge>(
    options: SearchOptions<E>,
    alone: bool,
    limits: SearchLimits,
    quiet_only: bool,
    n: int,
    g: Game,
    setups: Seq<Setup>,
    mind: Mind,
    end: Log,
    samples: Seq<Sample>,
    result: GameResult,
    stats: SelfPlayStats,
) -> (c: Course)
    requires
        comes_of(
            options,
            alone,
            limits,
            quiet_only,
            n,
            g,
            setups,
            mind,
            end,
            samples,
            result,
            stats,
        ),
    ensures
        course_of(c, options, alone, limits, quiet_only, setups, g, mind, result),
        samples.len() == c.at.len(),
        forall|i: int|
            0 <= i < samples.len() ==> {
                let h = c.games[c.at[i]];
                let run = c.runs[c.at[i]];
                &&& (#[trigger] samples[i]).score == run.score
                &&& samples[i].side == (match h.side {
                    Color::White => 0int,
                    Color::Black => 1,
                })
                &&& samples[i].result == (match result {
                    GameResult::Win(Color::White) => 1int,
                    GameResult::Win(Color::Black) => -1,
                    GameResult::Draw => 0,
                })
                &&& samples[i].flags == (if harmless(h, run.best) {
                    1int
                } else {
                    0
                })
                &&& forall|s: int|
                    0 <= s < 64 ==> #[trigger] samples[i].man_on(s) == h.board[s]
            },
        stats.games == 1,
        stats.positions_kept == samples.len(),
        stats.positions_seen == setups.len(),
        stats.plies == setups.len(),
        stats.nodes == nodes_added(0, c.runs),
        stats.white_wins + stats.black_wins + stats.draws == 1,
        (stats.white_wins == 1) == (result == GameResult::Win(Color::White)),
        (stats.black_wins == 1) == (result == GameResult::Win(Color::Black)),
{
    let c = lemma_course(
        options,
        alone,
        limits,
        quiet_only,
        setups,
        g,
        new_log(mind),
        end,
        result,
    );
    assert(c.at.len() <= setups.len()) by {
        reveal(course_of);
        lemma_ascending(c.at, setups.len() as int);
    }
    assert forall|i: int| 0 <= i < samples.len() implies {
        let h = c.games[c.at[i]];
        let run = c.runs[c.at[i]];
        &&& (#[trigger] samples[i]).score == run.score
        &&& samples[i].side == (match h.side {
            Color::White => 0int,
            Color::Black => 1,
        })
        &&& samples[i].result == (match result {
            GameResult::Win(Color::White) => 1int,
            GameResult::Win(Color::Black) => -1,
            GameResult::Draw => 0,
        })
        &&& samples[i].flags == (if harmless(h, run.best) {
            1int
        } else {
            0
        })
        &&& forall|s: int| 0 <= s < 64 ==> #[trigger] samples[i].man_on(s) == h.board[s]
    } by {
        let k = c.at[i];
        let (h, run, l) = (c.games[k], c.runs[k], end.lessons[i]);
        assert(l.game == h && l.score == run.score);
        assert(teaches(samples[i], l, result));
        let plain = Sample { result: 0, ..samples[i] };
        assert(c.at.contains(k));
        assert(leaves_lesson(h, run, quiet_only)) by {
            reveal(course_of);
        }
        assert forall|s: int| 0 <= s < 64 implies #[trigger] samples[i].man_on(s) == h.board[s] by {
            assert(bits::bit(plain.occ, s) <==> rules::occupied(h, s));
            if rules::occupied(h, s) {
                assert(data::nibble(plain.nibbles@, data::place(plain.occ, s)) < 12);
            }
        }
    }
    c
}

/// Distinct numbers below `n`, in order, are no more than `n`.
proof fn lemma_ascending(l: Seq<int>, n: int)
    requires
        n >= 0,
        forall|i: int| 0 <= i < l.len() ==> 0 <= #[trigger] l[i] < n,
        forall|i: int, j: int| 0 <= i < j < l.len() ==> #[trigger] l[i] < #[trigger] l[j],
    ensures
        l.len() <= n,
    decreases l.len(),
{
    if l.len() > 0 {
        let m = l.drop_last();
        assert forall|i: int| 0 <= i < m.len() implies 0 <= #[trigger] m[i] < l.last() by {
            assert(l[i] < l[l.len() - 1]);
        }
        lemma_ascending(m, l.last());
    }
}

/// A side to move in a game without a result has a move to search.
proof fn lemma_search_has_moves(g: Game)
    requires
        g.board.len() == 64,
        rules::outcome(g) is None,
    ensures
        plan::considered(g, GenMode::Search).len() > 0,
{
    laws::law_a_king_always_has_a_move(g);
}

/// Labels records with the result of their game.
fn label(samples: &mut Vec<Sample>, result: GameResult, Ghost(lessons): Ghost<Seq<Lesson>>)
    requires
        old(samples)@.len() == lessons.len(),
        forall|i: int|
            0 <= i < lessons.len() ==> (#[trigger] old(samples)@[i]).records(
                lessons[i].game,
                lessons[i].score,
                lessons[i].quiet,
            ),
    ensures
        final(samples)@.len() == lessons.len(),
        forall|i: int|
            0 <= i < lessons.len() ==> teaches(#[trigger] final(samples)@[i], lessons[i], result),
{
    let mut i: usize = 0;
    while i < samples.len()
        invariant
            i <= samples@.len(),
            samples@.len() == lessons.len(),
            forall|k: int|
                0 <= k < i ==> teaches(#[trigger] samples@[k], lessons[k], result),
            forall|k: int|
                i <= k < lessons.len() ==> (#[trigger] samples@[k]).records(
                    lessons[k].game,
                    lessons[k].score,
                    lessons[k].quiet,
                ),
        decreases samples.len() - i,
    {
        let mut s: Sample = samples[i];
        let ghost before = s;
        s.set_result(result);
        assert(Sample { result: 0, ..s } == before);
        samples[i] = s;
        i += 1;
    }
}

/// Plays one game from a position to its end, returning a record of every position worth
/// learning from, the result, and the counts.
pub fn play_from<E: Judge>(
    opening: &Position,
    limits: &SearchLimits,
    quiet_only: bool,
    searcher: &mut Searcher<E>,
) -> (r: (Vec<Sample>, GameResult, SelfPlayStats))
    requires
        in_play(*opening),
        old(searcher).wf(),
    ensures
        final(searcher).wf(),
        final(searcher).choices() == old(searcher).choices(),
        final(searcher).flag() == old(searcher).flag(),
        final(searcher).alone() == old(searcher).alone(),
        exists|setups: Seq<Setup>, mind: Mind, end: Log| #[trigger]
            comes_of(
                old(searcher).choices(),
                old(searcher).alone(),
                *limits,
                quiet_only,
                old(searcher).mind().entries.len() as int,
                opening@,
                setups,
                mind,
                end,
                r.0@,
                r.1,
                r.2,
            ),
{
    let ghost options = searcher.choices();
    let ghost alone = searcher.alone();
    let ghost n = searcher.mind().entries.len() as int;
    let mut pos: Position = *opening;
    let mut samples: Vec<Sample> = Vec::new();
    let mut stats = SelfPlayStats::default();
    searcher.reset();
    let ghost start = searcher.mind();
    let ghost mut setups: Seq<Setup> = Seq::empty();
    let ghost mut log = new_log(start);
    proof {
        assert forall|rest: Seq<Setup>| #[trigger] (setups + rest) == rest by {
            assert(setups + rest =~= rest);
        }
    }
    loop
        invariant
            in_play(pos),
            searcher.wf(),
            searcher.choices() == options,
            searcher.flag() == old(searcher).flag(),
            searcher.alone() == alone,
            alone == old(searcher).alone(),
            options == old(searcher).choices(),
            n == old(searcher).mind().entries.len(),
            plan::fresh(start, n),
            log.mind == searcher.mind(),
            0 <= log.plies,
            log.plies == 0 || log.plies <= pos.ply <= 200,
            log.lessons.len() <= log.plies,
            stats == (SelfPlayStats {
                positions_seen: log.plies as u64,
                positions_kept: log.lessons.len() as u64,
                nodes: log.nodes,
                plies: log.plies as u64,
                ..no_stats()
            }),
            samples@.len() == log.lessons.len(),
            forall|i: int|
                0 <= i < samples@.len() ==> (#[trigger] samples@[i]).records(
                    log.lessons[i].game,
                    log.lessons[i].score,
                    log.lessons[i].quiet,
                ),
            forall|rest: Seq<Setup>, end: Log, result: GameResult|
                game_goes(options, alone, *limits, quiet_only, rest, pos@, log, end, result)
                    ==> #[trigger] game_goes(
                    options,
                    alone,
                    *limits,
                    quiet_only,
                    setups + rest,
                    opening@,
                    new_log(start),
                    end,
                    result,
                ),
        decreases 200 - pos.ply,
    {
        if let Some(result) = pos.result() {
            let ghost none = Seq::<Setup>::empty();
            assert(game_goes(options, alone, *limits, quiet_only, none, pos@, log, log, result));
            assert(game_goes(
                options,
                alone,
                *limits,
                quiet_only,
                setups + none,
                opening@,
                new_log(start),
                log,
                result,
            ));
            label(&mut samples, result, Ghost(log.lessons));
            stats.games = 1;
            match result {
                GameResult::Draw => {
                    stats.draws = 1;
                },
                GameResult::Win(Color::White) => {
                    stats.white_wins = 1;
                },
                GameResult::Win(Color::Black) => {
                    stats.black_wins = 1;
                },
            }
            let r = (samples, result, stats);
            assert(comes_of(
                old(searcher).choices(),
                old(searcher).alone(),
                *limits,
                quiet_only,
                old(searcher).mind().entries.len() as int,
                opening@,
                setups + none,
                start,
                log,
                r.0@,
                r.1,
                r.2,
            ));
            return r;
        }
        // Both kings stand, so the side to move has a move.
        proof {
            lemma_search_has_moves(pos@);
        }
        let ghost (g, log0) = (pos@, log);
        let r = searcher.search(&pos, limits);
        stats.nodes = stats.nodes.wrapping_add(r.nodes);
        stats.plies += 1;
        stats.positions_seen += 1;
        let quiet: bool = !is_capture(&pos, r.best);
        let usable: bool = -MATE_THRESHOLD < r.score && r.score < MATE_THRESHOLD;
        if usable && (quiet || !quiet_only) {
            samples.push(Sample::from_position(&pos, r.score, quiet));
            stats.positions_kept += 1;
        }
        pos = played(&pos, r.best);
        proof {
            let setup = searcher.setup();
            let done = setups;
            log = logged(log0, quiet_only, g, searcher.mind(), r@);
            setups = done.push(setup);
            reveal(plan::next);
            assert forall|rest: Seq<Setup>, end: Log, result: GameResult|
                game_goes(
                    options,
                    alone,
                    *limits,
                    quiet_only,
                    rest,
                    pos@,
                    log,
                    end,
                    result,
                ) implies #[trigger] game_goes(
                options,
                alone,
                *limits,
                quiet_only,
                setups + rest,
                opening@,
                new_log(start),
                end,
                result,
            ) by {
                let longer = seq![setup] + rest;
                assert(done + longer =~= setups + rest);
                assert(longer.skip(1) =~= rest);
                assert(longer[0] == setup);
                assert(game_goes(options, alone, *limits, quiet_only, longer, g, log0, end, result));
            }
        }
    }
}

/// What can come of a self-play game.
#[verifier::opaque]
pub open spec fn self_played<E: Judge>(
    cfg: SelfPlayConfig<E>,
    options: SearchOptions<E>,
    alone: bool,
    n: int,
    before: u64,
    after: u64,
    samples: Seq<Sample>,
    result: GameResult,
    stats: SelfPlayStats,
) -> bool {
    exists|scores: Seq<int>, g: Game, setups: Seq<Setup>, mind: Mind, end: Log|
        #![trigger opens(cfg, before, scores, g, after), comes_of(options, alone, cfg.limits, cfg.quiet_only, n, g, setups, mind, end, samples, result, stats)]
        opens(cfg, before, scores, g, after) && comes_of(
            options,
            alone,
            cfg.limits,
            cfg.quiet_only,
            n,
            g,
            setups,
            mind,
            end,
            samples,
            result,
            stats,
        )
}

/// The logs say the same, and their searchers go on alike.
spec fn same_log(a: Log, b: Log) -> bool {
    &&& a.lessons == b.lessons
    &&& a.nodes == b.nodes
    &&& a.plies == b.plies
    &&& plan::begun(a.mind) == plan::begun(b.mind)
}

proof fn lemma_game_repeats<E: Judge>(
    options: SearchOptions<E>,
    limits: SearchLimits,
    quiet_only: bool,
    s: Seq<Setup>,
    t: Seq<Setup>,
    g: Game,
    a: Log,
    b: Log,
    x: Log,
    y: Log,
    p: GameResult,
    q: GameResult,
)
    requires
        limits.movetime is None,
        same_log(a, b),
        game_goes(options, true, limits, quiet_only, s, g, a, x, p),
        game_goes(options, true, limits, quiet_only, t, g, b, y, q),
    ensures
        same_log(x, y),
        p == q,
    decreases s.len(),
{
    if rules::outcome(g) is None {
        search::law_lone_searches_are_repeatable(
            s[0],
            t[0],
            a.mind,
            b.mind,
            search::worth_of(options.evaluator),
            options.use_null_move,
            options.use_lmr,
            limits,
            g,
            0,
        );
        let (m, run) = plan::search(s[0], a.mind, g, 0, search::last_depth(limits));
        lemma_game_repeats(
            options,
            limits,
            quiet_only,
            s.skip(1),
            t.skip(1),
            plan::next(g, run.best),
            logged(a, quiet_only, g, m, run),
            logged(b, quiet_only, g, m, run),
            x,
            y,
            p,
            q,
        );
    }
}

/// Without a time limit, and with a searcher that nobody else can stop, a self-play game
/// is repeatable: the random numbers fix its records, its result and its counts.
pub proof fn law_self_play_is_repeatable<E: Judge>(
    cfg: SelfPlayConfig<E>,
    options: SearchOptions<E>,
    n: int,
    before: u64,
    after1: u64,
    samples1: Seq<Sample>,
    result1: GameResult,
    stats1: SelfPlayStats,
    after2: u64,
    samples2: Seq<Sample>,
    result2: GameResult,
    stats2: SelfPlayStats,
)
    requires
        cfg.limits.movetime is None,
        self_played(cfg, options, true, n, before, after1, samples1, result1, stats1),
        self_played(cfg, options, true, n, before, after2, samples2, result2, stats2),
    ensures
        after1 == after2,
        samples1 == samples2,
        result1 == result2,
        stats1 == stats2,
{
    reveal(self_played);
    let (limits, quiet_only) = (cfg.limits, cfg.quiet_only);
    let (c, g, s, m, x) = choose|scores: Seq<int>, g: Game, setups: Seq<Setup>, mind: Mind, end: Log|
        #![trigger opens(cfg, before, scores, g, after1), comes_of(options, true, limits, quiet_only, n, g, setups, mind, end, samples1, result1, stats1)]
        opens(cfg, before, scores, g, after1) && comes_of(
            options,
            true,
            limits,
            quiet_only,
            n,
            g,
            setups,
            mind,
            end,
            samples1,
            result1,
            stats1,
        );
    let (d, h, t, k, y) = choose|scores: Seq<int>, g: Game, setups: Seq<Setup>, mind: Mind, end: Log|
        #![trigger opens(cfg, before, scores, g, after2), comes_of(options, true, limits, quiet_only, n, g, setups, mind, end, samples2, result2, stats2)]
        opens(cfg, before, scores, g, after2) && comes_of(
            options,
            true,
            limits,
            quiet_only,
            n,
            g,
            setups,
            mind,
            end,
            samples2,
            result2,
            stats2,
        );
    law_openings_are_repeatable(cfg, before, c, g, after1, d, h, after2);
    plan::lemma_fresh_starts(m, k, n);
    lemma_game_repeats(
        options,
        limits,
        quiet_only,
        s,
        t,
        g,
        new_log(m),
        new_log(k),
        x,
        y,
        result1,
        result2,
    );
    assert forall|i: int| 0 <= i < samples1.len() implies #[trigger] samples1[i] == samples2[i] by {
        let (a, b, l) = (samples1[i], samples2[i], x.lessons[i]);
        assert(teaches(a, l, result1));
        assert(teaches(b, l, result2));
        data::law_records_are_unique(
            (Sample { result: 0, ..a }),
            (Sample { result: 0, ..b }),
            l.game,
            l.score,
            l.quiet,
        );
        assert(a == Sample { result: a.result, ..(Sample { result: 0, ..a }) });
        assert(b == Sample { result: b.result, ..(Sample { result: 0, ..b }) });
    }
    assert(samples1 =~= samples2);
}

/// Plays one game to completion, returning a record of every position worth learning from
/// after the opening, the final result, and the counts.
pub fn play_game<E: Judge + Copy>(
    cfg: &SelfPlayConfig<E>,
    rng: &mut SplitMix64,
    searcher: &mut Searcher<E>,
) -> (r: (Vec<Sample>, GameResult, SelfPlayStats))
    requires
        cfg.wf(),
        old(searcher).wf(),
    ensures
        final(searcher).wf(),
        final(searcher).choices() == old(searcher).choices(),
        final(searcher).flag() == old(searcher).flag(),
        final(searcher).alone() == old(searcher).alone(),
        self_played(
            *cfg,
            old(searcher).choices(),
            old(searcher).alone(),
            old(searcher).mind().entries.len() as int,
            old(rng).state(),
            final(rng).state(),
            r.0@,
            r.1,
            r.2,
        ),
{
    proof {
        reveal(self_played);
    }
    let pos = random_opening(cfg, rng);
    play_from(&pos, &cfg.limits, cfg.quiet_only, searcher)
}

/// The seed of the `i`-th game of a run.
pub open spec fn game_seed(seed: u64, i: u64) -> u64 {
    seed ^ i.wrapping_mul(GOLDEN_GAMMA)
}

/// No two games of a run start from the same random numbers.
pub proof fn law_games_have_separate_seeds(seed: u64, i: u64, j: u64)
    requires
        i != j,
    ensures
        game_seed(seed, i) != game_seed(seed, j),
{
    let (c, inv) = (GOLDEN_GAMMA, 0xf1de83e19937733du64);
    assert((c * inv) % 0x1_0000_0000_0000_0000 == 1);
    tables::lemma_wrapping_mul_undone(i, c, inv);
    tables::lemma_wrapping_mul_undone(j, c, inv);
    let (x, y) = (i.wrapping_mul(c), j.wrapping_mul(c));
    tables::lemma_xor_undone(seed, x, y);
}

/// The options of the searcher that plays both sides.
pub open spec fn player<E>(cfg: SelfPlayConfig<E>) -> SearchOptions<E> {
    SearchOptions {
        evaluator: cfg.evaluator,
        tt_megabytes: cfg.tt_megabytes,
        use_null_move: false,
        use_lmr: true,
        verbose: false,
    }
}

/// Plays the `i`-th game of a run, which depends on no other.
pub fn play_numbered<E: Judge + Copy>(cfg: &SelfPlayConfig<E>, i: u64) -> (r: (
    Vec<Sample>,
    GameResult,
    SelfPlayStats,
))
    requires
        cfg.wf(),
        cfg.tt_megabytes * 1024 * 1024 <= usize::MAX,
    ensures
        exists|after: u64| #[trigger]
            self_played(
                *cfg,
                player(*cfg),
                true,
                search::table_size(cfg.tt_megabytes as int),
                game_seed(cfg.seed, i),
                after,
                r.0@,
                r.1,
                r.2,
            ),
{
    let mut rng = SplitMix64::new(cfg.seed ^ i.wrapping_mul(GOLDEN_GAMMA));
    let mut options = SearchOptions::with_evaluator(cfg.evaluator);
    options.tt_megabytes = cfg.tt_megabytes;
    let mut searcher = Searcher::unshared(options);
    let r = play_game(cfg, &mut rng, &mut searcher);
    assert(options == player(*cfg));
    assert(self_played(
        *cfg,
        player(*cfg),
        true,
        search::table_size(cfg.tt_megabytes as int),
        game_seed(cfg.seed, i),
        rng.state(),
        r.0@,
        r.1,
        r.2,
    ));
    r
}

} // verus!
