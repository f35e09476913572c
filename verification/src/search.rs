//! Alpha-beta search.
//!
//! Iterative deepening, transposition table, killer moves, history heuristic,
//! late move reductions, aspiration windows, and quiescence over all captures.
//!
//! Quiescence is not optional here. One move can swing four or more pieces via a
//! blast or a knight sweep, so any fixed-depth search without it hallucinates.
//!
//! Null-move pruning is implemented but **off by default**: position volatility is
//! extreme and a quiet-looking position can be lost outright in one move. Turn it
//! on only after measuring that it does not cost tactics.
//!
//! What a search finds is stated in `plan`; the searcher here carries that out.

use std::sync::Arc;
use std::sync::atomic::AtomicBool;
use std::time::{Duration, Instant};
use vstd::prelude::*;
use vstd::string::*;
use crate::bits;
use crate::eval;
use crate::eval::{Evaluator, INFINITY, MATE, MATE_THRESHOLD, move_delta};
use crate::geom;
use crate::movegen::{GenMode, MoveList, generate, is_capture};
use crate::plan;
use crate::plan::{Answer, Bound, Mind, Run, Setup, TtEntry};
use crate::position::{GameResult, PLY_CAP, Position};
use crate::rules;
use crate::rules::Game;
use crate::tables::{zobrist_ply, zobrist_side};
use crate::text;
use crate::text::push_decimal;
use crate::types;
use crate::types::{Color, Move};

verus! {

broadcast use crate::bits::group_bits;

pub const MAX_PLY: usize = 128;

// ---------------------------------------------------------------------------
// The clock
// ---------------------------------------------------------------------------

/// A point in time.
#[verifier::external_type_specification]
#[verifier::external_body]
pub struct ExInstant(std::time::Instant);

/// `Instant::now` reads the clock. Nothing is claimed of what it reads.
pub assume_specification[ std::time::Instant::now ]() -> (t: Instant);

/// `Instant::elapsed` reads the clock again. Nothing is claimed of what it reads.
pub assume_specification[ std::time::Instant::elapsed ](t: &Instant) -> (d: Duration);

/// `Duration::as_nanos` gives a span in nanoseconds. The spans here come off the clock, so
/// nothing is claimed of the number.
pub assume_specification[ std::time::Duration::as_nanos ](d: &Duration) -> (n: u128);

// ---------------------------------------------------------------------------
// Transposition table
// ---------------------------------------------------------------------------

pub struct TranspositionTable {
    entries: Vec<TtEntry>,
    mask: usize,
    generation: u8,
}

/// The least power of two, from `p` on, that is no less than `x`.
pub open spec fn power_from(x: int, p: int) -> int
    decreases 2 * x - p,
{
    if p >= x || p <= 0 {
        p
    } else {
        power_from(x, 2 * p)
    }
}

/// Number of entries of a table of `mb` megabytes: half the least power of two that
/// its 16-byte entries would fill, and at least 1024.
pub open spec fn table_size(mb: int) -> int {
    let n = power_from(
        (if mb < 1 {
            1
        } else {
            mb
        }) * 65536,
        1,
    ) / 2;
    if n < 1024 {
        1024
    } else {
        n
    }
}

impl TranspositionTable {
    pub closed spec fn wf(self) -> bool {
        &&& self.entries@.len() == self.mask + 1
        &&& forall|i: int| 0 <= i < self.entries@.len() ==> (#[trigger] self.entries@[i]).depth >= -1
    }

    /// The entries of the table.
    pub closed spec fn cells(self) -> Seq<TtEntry> {
        self.entries@
    }

    /// The number of the current search, modulo 256.
    pub closed spec fn age(self) -> u8 {
        self.generation
    }

    pub fn with_megabytes(mb: usize) -> (t: TranspositionTable)
        requires
            mb * 1024 * 1024 <= usize::MAX,
        ensures
            t.wf(),
            t.age() == 0,
            t.cells().len() == table_size(mb as int),
            forall|i: int| 0 <= i < t.cells().len() ==> #[trigger] t.cells()[i]
                == plan::blank_entry(),
    {
        let want: usize = if mb < 1 {
            65536
        } else {
            mb * 65536
        };
        let mut p: usize = 1;
        while p < want
            invariant
                1 <= p,
                want * 16 <= usize::MAX || want == 65536,
                p < 2 * want,
                power_from(want as int, 1) == power_from(want as int, p as int),
            decreases 2 * want - p,
        {
            p = 2 * p;
        }
        let n: usize = if p / 2 < 1024 {
            1024
        } else {
            p / 2
        };
        TranspositionTable { entries: blank_table(n), mask: n - 1, generation: 0 }
    }

    pub fn clear(&mut self)
        requires
            old(self).wf(),
        ensures
            final(self).wf(),
            final(self).age() == 0,
            final(self).cells().len() == old(self).cells().len(),
            forall|i: int| 0 <= i < final(self).cells().len() ==> #[trigger] final(self).cells()[i]
                == plan::blank_entry(),
    {
        self.entries = blank_table(self.entries.len());
        self.generation = 0;
    }

    pub fn new_generation(&mut self)
        requires
            old(self).wf(),
        ensures
            final(self).wf(),
            final(self).cells() == old(self).cells(),
            final(self).age() == old(self).age().wrapping_add(1),
    {
        self.generation = self.generation.wrapping_add(1);
    }

    fn place(&self, key: u64) -> (i: usize)
        requires
            self.wf(),
        ensures
            i == plan::slot(key, self.cells().len() as int),
            i < self.cells().len(),
    {
        let m: u64 = self.mask as u64;
        assert(key & m <= m) by (bit_vector);
        (key & m) as usize
    }

    /// The entry for a key, if there is one.
    fn probe(&self, key: u64) -> (r: Option<TtEntry>)
        requires
            self.wf(),
        ensures
            r == plan::recall(self.cells(), key),
    {
        let e: TtEntry = self.entries[self.place(key)];
        if e.key == key && e.depth >= 0 {
            Some(e)
        } else {
            None
        }
    }

    /// Depth-preferred, but always replaces entries from an older search.
    fn store(&mut self, key: u64, mv: Move, score: i32, depth: i32, bound: Bound)
        requires
            old(self).wf(),
        ensures
            final(self).wf(),
            final(self).age() == old(self).age(),
            final(self).cells() == plan::stored(
                old(self).cells(),
                old(self).age(),
                key,
                mv,
                score as int,
                depth as int,
                bound,
            ),
    {
        let i: usize = self.place(key);
        let e: TtEntry = self.entries[i];
        let d: i8 = depth as i8;
        let stale: bool = e.generation != self.generation;
        if !stale && e.key == key && d < e.depth {
            return;
        }
        if !stale && e.key != key && d < e.depth - 3 {
            return;
        }
        let kept_score: i16 = if score < -32767 {
            -32767
        } else if score > 32767 {
            32767
        } else {
            score as i16
        };
        let kept_depth: i8 = if depth < 0 {
            0
        } else if depth > 127 {
            127
        } else {
            depth as i8
        };
        let new = TtEntry {
            key,
            mv,
            score: kept_score,
            depth: kept_depth,
            bound: bound.index(),
            generation: self.generation,
        };
        self.entries[i] = new;
        assert(self.cells() =~= plan::stored(
            old(self).cells(),
            old(self).age(),
            key,
            mv,
            score as int,
            depth as int,
            bound,
        ));
    }
}

fn blank_table(n: usize) -> (v: Vec<TtEntry>)
    ensures
        v@.len() == n,
        forall|i: int| 0 <= i < n ==> #[trigger] v@[i] == plan::blank_entry(),
{
    let e = TtEntry { key: 0, mv: Move(0), score: 0, depth: -1, bound: 0, generation: 0 };
    vec![e; n]
}

impl Bound {
    fn index(self) -> (b: u8)
        ensures
            b == self.code(),
    {
        match self {
            Bound::Exact => 0,
            Bound::Lower => 1,
            Bound::Upper => 2,
        }
    }
}

// ---------------------------------------------------------------------------
// Configuration and result
// ---------------------------------------------------------------------------

/// When to stop.
#[derive(Clone, Copy, PartialEq, Eq, Debug, Structural)]
pub struct SearchLimits {
    pub depth: Option<i32>,
    /// In milliseconds.
    pub movetime: Option<u64>,
    pub nodes: Option<u64>,
}

impl Default for SearchLimits {
    fn default() -> (r: SearchLimits)
        ensures
            r == (SearchLimits { depth: None, movetime: Some(1000), nodes: None }),
    {
        SearchLimits { depth: None, movetime: Some(1000), nodes: None }
    }
}

impl SearchLimits {
    pub fn depth(d: i32) -> (r: Self)
        ensures
            r == (SearchLimits { depth: Some(d), movetime: None, nodes: None }),
    {
        SearchLimits { depth: Some(d), movetime: None, nodes: None }
    }

    pub fn movetime_ms(ms: u64) -> (r: Self)
        ensures
            r == (SearchLimits { depth: None, movetime: Some(ms), nodes: None }),
    {
        SearchLimits { depth: None, movetime: Some(ms), nodes: None }
    }

    pub fn nodes(n: u64) -> (r: Self)
        ensures
            r == (SearchLimits { depth: None, movetime: None, nodes: Some(n) }),
    {
        SearchLimits { depth: None, movetime: None, nodes: Some(n) }
    }
}

#[derive(Clone, Debug)]
pub struct SearchResult {
    pub best: Move,
    pub score: i32,
    pub depth: i32,
    pub seldepth: i32,
    pub nodes: u64,
    pub pv: Vec<Move>,
    /// In nanoseconds.
    pub elapsed: u128,
}

impl View for SearchResult {
    type V = Run;

    open spec fn view(&self) -> Run {
        Run {
            best: self.best,
            score: self.score as int,
            depth: self.depth as int,
            seldepth: self.seldepth as int,
            nodes: self.nodes,
            pv: self.pv@,
        }
    }
}

impl Default for SearchResult {
    fn default() -> (r: SearchResult)
        ensures
            r@ == plan::no_run(Move(0)),
            r.elapsed == 0,
    {
        let r = SearchResult {
            best: Move(0),
            score: 0,
            depth: 0,
            seldepth: 0,
            nodes: 0,
            pv: Vec::new(),
            elapsed: 0,
        };
        assert(r@ =~= plan::no_run(Move(0)));
        r
    }
}

/// The first `n` moves of a line as text, parted by spaces.
pub open spec fn line_text(pv: Seq<Move>, n: int) -> Seq<char>
    decreases n,
{
    if n <= 0 {
        Seq::empty()
    } else if n == 1 {
        types::move_text(pv[0])
    } else {
        line_text(pv, n - 1) + seq![' '] + types::move_text(pv[n - 1])
    }
}

/// A score as an operator wants to read it: plies to a forced end, or pawns.
pub open spec fn score_text(score: int) -> Seq<char> {
    let size = if score < 0 {
        -score
    } else {
        score
    };
    if size >= 29_000 {
        (if score > 0 {
            Seq::<char>::empty()
        } else {
            seq!['-']
        }) + "win in "@ + text::signed_decimal(30_000 - size) + " ply"@
    } else {
        seq![
            if score < 0 {
                '-'
            } else {
                '+'
            },
        ] + text::decimal((size / 100) as nat) + seq!['.', text::digit(size / 10 % 10), text::digit(
            size % 10,
        )]
    }
}

/// Nodes per second, given nanoseconds.
pub open spec fn speed(nodes: int, elapsed: int) -> int {
    let n = nodes * 1_000_000_000 / elapsed;
    if elapsed <= 0 {
        0
    } else if n > u64::MAX {
        u64::MAX as int
    } else {
        n
    }
}

impl SearchResult {
    pub fn pv_string(&self) -> (r: String)
        ensures
            r@ == line_text(self.pv@, self.pv@.len() as int),
    {
        let mut out: String = String::new();
        let mut i: usize = 0;
        while i < self.pv.len()
            invariant
                i <= self.pv@.len(),
                out@ == line_text(self.pv@, i as int),
            decreases self.pv.len() - i,
        {
            if i > 0 {
                out.push(' ');
            }
            out.append(self.pv[i].to_text().as_str());
            i += 1;
            assert(out@ =~= line_text(self.pv@, i as int));
        }
        out
    }

    /// Nodes per second.
    pub fn nps(&self) -> (n: u64)
        ensures
            n == speed(self.nodes as int, self.elapsed as int),
    {
        if self.elapsed == 0 {
            return 0;
        }
        let n: u128 = self.nodes as u128 * 1_000_000_000 / self.elapsed;
        if n > u64::MAX as u128 {
            u64::MAX
        } else {
            n as u64
        }
    }

    /// One line about a finished iteration.
    pub fn info_line(&self) -> (r: String)
        requires
            self.score > i32::MIN,
            self.depth >= 0,
            self.seldepth >= 0,
        ensures
            r@ == "info depth "@ + text::decimal(self.depth as nat) + " seldepth "@ + text::decimal(
                self.seldepth as nat,
            ) + " score "@ + score_text(self.score as int) + " nodes "@ + text::decimal(
                self.nodes as nat,
            ) + " nps "@ + text::decimal(
                speed(self.nodes as int, self.elapsed as int) as nat,
            ) + " pv "@ + line_text(
                self.pv@,
                self.pv@.len() as int,
            ),
    {
        let mut out: String = String::new();
        out.append("info depth ");
        push_decimal(&mut out, self.depth as u128);
        out.append(" seldepth ");
        push_decimal(&mut out, self.seldepth as u128);
        out.append(" score ");
        out.append(self.score_string().as_str());
        out.append(" nodes ");
        push_decimal(&mut out, self.nodes as u128);
        out.append(" nps ");
        push_decimal(&mut out, self.nps() as u128);
        out.append(" pv ");
        out.append(self.pv_string().as_str());
        assert(Seq::<char>::empty() + "info depth "@ =~= "info depth "@);
        out
    }

    /// Renders the score the way an operator wants to read it.
    pub fn score_string(&self) -> (r: String)
        requires
            self.score > i32::MIN,
        ensures
            r@ == score_text(self.score as int),
    {
        let mut out: String = String::new();
        let size: i32 = if self.score < 0 {
            -self.score
        } else {
            self.score
        };
        if size >= MATE_THRESHOLD {
            if self.score <= 0 {
                out.push('-');
            }
            out.append("win in ");
            let plies: i32 = MATE - size;
            if plies < 0 {
                out.push('-');
                push_decimal(&mut out, (-plies) as u128);
            } else {
                push_decimal(&mut out, plies as u128);
            }
            out.append(" ply");
        } else {
            out.push(
                if self.score < 0 {
                    '-'
                } else {
                    '+'
                },
            );
            push_decimal(&mut out, (size / 100) as u128);
            out.push('.');
            out.push(text::digit_char((size / 10 % 10) as u8));
            out.push(text::digit_char((size % 10) as u8));
        }
        assert(out@ =~= score_text(self.score as int));
        out
    }
}

// ---------------------------------------------------------------------------
// Scores and keys
// ---------------------------------------------------------------------------

/// Window of plies before the cap in which the ply is part of the table key.
const PLY_SENSITIVE_WINDOW: u16 = 32;

/// Transposition key for a position.
///
/// `Position::key` is pure position identity, which is what we want almost
/// everywhere. But two paths of different lengths can reach the same position, so
/// the same key can occur at different plies within one search — and near the
/// ply cap the ply changes what the position is worth, because material
/// adjudication is about to fire. Fold the ply in only inside that window, so the
/// table stays shared for the rest of the game.
pub fn tt_key(pos: &Position) -> (k: u64)
    ensures
        k == plan::table_key(pos.key, pos.ply as int),
{
    if pos.ply >= PLY_CAP - PLY_SENSITIVE_WINDOW {
        pos.key ^ zobrist_ply((pos.ply % 256) as usize)
    } else {
        pos.key
    }
}

/// A finished game scores from the point of view of the side to move at
/// this node. Wins are discounted by ply so the search prefers the quicker one.
pub fn terminal_score(r: GameResult, stm: Color, ply: usize) -> (v: i32)
    requires
        ply <= i32::MAX,
    ensures
        v == plan::final_score(r, stm, ply as int),
{
    match r {
        GameResult::Draw => 0,
        GameResult::Win(w) => {
            if w == stm {
                MATE - ply as i32
            } else {
                -(MATE - ply as i32)
            }
        },
    }
}

pub fn to_tt_score(score: i32, ply: usize) -> (v: i32)
    requires
        ply <= 1_000_000,
        -2_000_000_000 <= score <= 2_000_000_000,
    ensures
        v == plan::stored_score(score as int, ply as int),
{
    if score >= MATE_THRESHOLD {
        score + ply as i32
    } else if score <= -MATE_THRESHOLD {
        score - ply as i32
    } else {
        score
    }
}

pub fn from_tt_score(score: i32, ply: usize) -> (v: i32)
    requires
        ply <= 1_000_000,
    ensures
        v == plan::recalled_score(score as int, ply as int),
{
    if score >= MATE_THRESHOLD {
        score - ply as i32
    } else if score <= -MATE_THRESHOLD {
        score + ply as i32
    } else {
        score
    }
}

/// Remaining plies before the cap adjudicates the game.
pub fn plies_left(pos: &Position) -> (n: i32)
    ensures
        n == 200 - pos.ply,
{
    PLY_CAP as i32 - pos.ply as i32
}

// ---------------------------------------------------------------------------
// Ordering
// ---------------------------------------------------------------------------

/// Selection sort one element at a time — cheaper than sorting the whole list,
/// because a beta cutoff usually lands in the first few moves.
pub fn pick_best(list: &mut MoveList, from: usize)
    requires
        old(list).wf(),
    ensures
        final(list).wf(),
        final(list).len == old(list).len,
        final(list).queue() == plan::picked(old(list).queue(), from as int),
{
    if from >= list.len {
        proof {
            let q = plan::picked(list.queue(), from as int);
            assert(list.queue().moves =~= q.moves);
            assert(list.queue().scores =~= q.scores);
        }
        return;
    }
    let mut best: usize = from;
    let mut j: usize = from + 1;
    while j < list.len
        invariant
            list.wf(),
            from < list.len,
            from < j <= list.len,
            from <= best < j,
            *list == *old(list),
            best == plan::best_place(list.queue().scores, from as int, j as int),
        decreases list.len - j,
    {
        if list.scores[j] > list.scores[best] {
            best = j;
        }
        j += 1;
    }
    if best != from {
        let m: Move = list.moves[from];
        list.moves[from] = list.moves[best];
        list.moves[best] = m;
        let s: i32 = list.scores[from];
        list.scores[from] = list.scores[best];
        list.scores[best] = s;
    }
    proof {
        let q = plan::picked(old(list).queue(), from as int);
        assert(list.queue().moves =~= q.moves);
        assert(list.queue().scores =~= q.scores);
    }
}

impl MoveList {
    /// The moves with their scores.
    pub open spec fn queue(self) -> plan::Queue {
        plan::Queue { moves: self@, scores: self.scores@.take(self.len as int) }
    }
}

// ---------------------------------------------------------------------------
// Searcher
// ---------------------------------------------------------------------------

/// `v` may be what an evaluation says of a game.
pub open spec fn may_say<T>(judge: T, g: Game, v: int) -> bool {
    true
}

/// A static evaluation that a search can use.
pub trait Judge: Sized {
    /// What a game is worth to the side to move. An evaluation whose arithmetic lies
    /// outside of this library leaves it open which number that is.
    open spec fn worth(&self, g: Game) -> int {
        choose|v: int| #[trigger] may_say(*self, g, v)
    }

    fn judge(&self, pos: &Position) -> (v: i32)
        requires
            pos.wf(),
        ensures
            v == self.worth(pos@),
            -1_000_000_000 <= v <= 1_000_000_000,
    ;
}

impl Judge for Evaluator {
    open spec fn worth(&self, g: Game) -> int {
        eval::side_value(g, self.weights())
    }

    fn judge(&self, pos: &Position) -> (v: i32) {
        proof {
            eval::lemma_tuned_fits(pos@);
            eval::lemma_v2_fits(pos@);
            eval::lemma_spec_fits(pos@);
        }
        self.eval(pos)
    }
}

/// What an evaluation makes of games.
pub open spec fn worth_of<E: Judge>(e: E) -> spec_fn(Game) -> int {
    |g: Game| e.worth(g)
}

pub struct SearchOptions<E> {
    pub evaluator: E,
    pub tt_megabytes: usize,
    /// Off by default — see the module note.
    pub use_null_move: bool,
    pub use_lmr: bool,
    /// Report each finished iteration. The search itself reports nothing.
    pub verbose: bool,
}

impl<E: Copy> Copy for SearchOptions<E> {

}

impl<E: Copy> Clone for SearchOptions<E> {
    fn clone(&self) -> (r: Self)
        ensures
            r == *self,
    {
        *self
    }
}

impl<E> SearchOptions<E> {
    /// The defaults, with an evaluator.
    pub fn with_evaluator(evaluator: E) -> (r: SearchOptions<E>)
        ensures
            r.evaluator == evaluator,
            r.tt_megabytes == 64,
            !r.use_null_move,
            r.use_lmr,
            !r.verbose,
    {
        SearchOptions {
            evaluator,
            tt_megabytes: 64,
            use_null_move: false,
            use_lmr: true,
            verbose: false,
        }
    }
}

impl Default for SearchOptions<Evaluator> {
    fn default() -> (r: SearchOptions<Evaluator>)
        ensures
            r.evaluator == Evaluator::Hand,
            r.tt_megabytes == 64,
            !r.use_null_move,
            r.use_lmr,
            !r.verbose,
    {
        SearchOptions::with_evaluator(Evaluator::Hand)
    }
}

pub struct Searcher<E> {
    pub options: SearchOptions<E>,
    tt: TranspositionTable,
    killers: [(Move, Move); 128],
    /// 4096 scores, indexed by packed move.
    history: Vec<i32>,
    nodes: u64,
    seldepth: i32,
    start: Instant,
    /// In nanoseconds from the start.
    deadline: Option<u128>,
    node_limit: Option<u64>,
    stop: Arc<AtomicBool>,
    aborted: bool,
    /// The flag has not been handed out and will not be.
    alone: bool,
    /// What the stop flag and the clock have shown in this search, question by question.
    answers: Ghost<Seq<Answer>>,
    /// What the clock has shown in it, whenever it was weighed whether to go deeper.
    spent: Ghost<Seq<u128>>,
}

/// The flag is up. Whoever holds it may change it at any time, so nothing is known of what
/// a look at it shows.
fn raised(flag: &Arc<AtomicBool>) -> (b: bool) {
    flag.load(std::sync::atomic::Ordering::Relaxed)
}

fn lower(flag: &Arc<AtomicBool>) {
    flag.store(false, std::sync::atomic::Ordering::Relaxed);
}

/// The time limit is reached. Times are in nanoseconds from the start.
pub fn time_is_up(deadline: Option<u128>, used: u128) -> (b: bool)
    ensures
        b == plan::time_is_up(deadline, used),
{
    match deadline {
        Some(d) => used >= d,
        None => false,
    }
}

/// More than two thirds of the time are gone. Times are in nanoseconds from the start.
pub fn time_is_short(deadline: Option<u128>, used: u128) -> (b: bool)
    ensures
        b == plan::time_is_short(deadline, used),
{
    match deadline {
        Some(d) => used / 2 > d || used > d - used / 2,
        None => false,
    }
}

impl<E: Judge> Searcher<E> {
    /// What the searcher remembers.
    pub closed spec fn mind(self) -> Mind {
        Mind {
            entries: self.tt.cells(),
            generation: self.tt.age(),
            killers: self.killers@,
            history: self.history@,
            nodes: self.nodes,
            seldepth: self.seldepth as int,
            aborted: self.aborted,
            asked: self.answers@.len() as int,
            weighed: self.spent@.len() as int,
        }
    }

    /// What the current search has been given, with the answers so far.
    pub closed spec fn setup(self) -> Setup {
        Setup {
            worth: worth_of(self.options.evaluator),
            null_move: self.options.use_null_move,
            lmr: self.options.use_lmr,
            node_limit: self.node_limit,
            alone: self.alone,
            deadline: self.deadline,
            answers: self.answers@,
            spent: self.spent@,
        }
    }

    pub closed spec fn wf(self) -> bool {
        &&& self.tt.wf()
        &&& self.history@.len() == 4096
        &&& self.seldepth >= 0
    }

    /// The options that the searcher works with.
    pub closed spec fn choices(self) -> SearchOptions<E> {
        self.options
    }

    /// The flag that stops the search.
    pub closed spec fn flag(self) -> Arc<AtomicBool> {
        self.stop
    }

    /// Nobody else can raise the flag, so the search does not look at it.
    pub closed spec fn alone(self) -> bool {
        self.alone
    }

    /// The same search as `o`, perhaps further on.
    spec fn continues(self, o: Self) -> bool {
        &&& self.wf()
        &&& self.options == o.options
        &&& self.node_limit == o.node_limit
        &&& self.deadline == o.deadline
        &&& self.stop == o.stop
        &&& self.alone == o.alone
        &&& plan::extends(self.setup(), o.setup())
    }

    pub fn new(options: SearchOptions<E>) -> (r: Searcher<E>)
        requires
            options.tt_megabytes * 1024 * 1024 <= usize::MAX,
        ensures
            r.wf(),
            r.choices() == options,
            !r.alone(),
            plan::fresh(r.mind(), table_size(options.tt_megabytes as int)),
    {
        Searcher::made(options, false)
    }

    /// A searcher whose flag stays with it: nobody else can stop it.
    pub(crate) fn unshared(options: SearchOptions<E>) -> (r: Searcher<E>)
        requires
            options.tt_megabytes * 1024 * 1024 <= usize::MAX,
        ensures
            r.wf(),
            r.choices() == options,
            r.alone(),
            plan::fresh(r.mind(), table_size(options.tt_megabytes as int)),
    {
        Searcher::made(options, true)
    }

    fn made(options: SearchOptions<E>, alone: bool) -> (r: Searcher<E>)
        requires
            options.tt_megabytes * 1024 * 1024 <= usize::MAX,
        ensures
            r.wf(),
            r.choices() == options,
            r.alone() == alone,
            plan::fresh(r.mind(), table_size(options.tt_megabytes as int)),
    {
        let tt = TranspositionTable::with_megabytes(options.tt_megabytes);
        Searcher {
            options,
            tt,
            killers: [(Move(0), Move(0));128],
            history: vec![0;4096],
            nodes: 0,
            seldepth: 0,
            start: Instant::now(),
            deadline: None,
            node_limit: None,
            stop: Arc::new(AtomicBool::new(false)),
            aborted: false,
            alone,
            answers: Ghost(Seq::empty()),
            spent: Ghost(Seq::empty()),
        }
    }

    pub fn with_evaluator(ev: E) -> (r: Searcher<E>)
        ensures
            r.wf(),
            r.choices().evaluator == ev,
            r.choices().tt_megabytes == 64,
            !r.choices().use_null_move,
            r.choices().use_lmr,
            !r.choices().verbose,
            !r.alone(),
            plan::fresh(r.mind(), table_size(64)),
    {
        Searcher::new(SearchOptions::with_evaluator(ev))
    }

    /// A handle on the flag that stops the search.
    pub fn stop_flag(&self) -> (f: Arc<AtomicBool>)
        ensures
            f == self.flag(),
    {
        self.stop.clone()
    }

    /// Clears everything that carries over between games.
    pub fn reset(&mut self)
        requires
            old(self).wf(),
        ensures
            final(self).wf(),
            final(self).choices() == old(self).choices(),
            final(self).flag() == old(self).flag(),
            final(self).alone() == old(self).alone(),
            plan::fresh(final(self).mind(), old(self).mind().entries.len() as int),
    {
        self.tt.clear();
        self.killers = [(Move(0), Move(0));128];
        self.history = vec![0;4096];
    }
}

impl<E: Judge> Searcher<E> {
    // -----------------------------------------------------------------------
    // Time / abort
    // -----------------------------------------------------------------------

    /// The clock, or whoever holds the stop flag, says that it is time to stop.
    fn outside_says_stop(&mut self) -> (b: bool)
        requires
            old(self).wf(),
        ensures
            final(self).continues(*old(self)),
            final(self).mind() == (Mind { asked: old(self).mind().asked + 1, ..old(self).mind() }),
            forall|s: Setup| #[trigger]
                plan::extends(s, final(self).setup()) ==> b == plan::told_to_stop(
                    s,
                    old(self).mind().asked,
                ) && plan::extends(s, old(self).setup()),
    {
        let up: bool = !self.alone && raised(&self.stop);
        let used: u128 = if !up && self.deadline.is_some() {
            self.start.elapsed().as_nanos()
        } else {
            0
        };
        self.answers = Ghost(self.answers@.push(Answer { raised: up, used }));
        proof {
            assert(self.setup().worth =~= old(self).setup().worth);
            let n = old(self).mind().asked;
            assert forall|s: Setup| #[trigger]
                plan::extends(s, self.setup()) implies s.answers[n] == self.answers@[n]
                && plan::extends(s, old(self).setup()) by {
                assert(s.answers[n] == self.answers@[n]);
                assert forall|i: int| 0 <= i < n implies #[trigger] s.answers[i] == old(
                    self,
                ).answers@[i] by {
                    assert(s.answers[i] == self.answers@[i]);
                }
            }
        }
        up || time_is_up(self.deadline, used)
    }

    /// More than two thirds of the time are gone, so another iteration has no chance
    /// to finish.
    fn time_is_short(&mut self) -> (b: bool)
        requires
            old(self).wf(),
        ensures
            final(self).continues(*old(self)),
            final(self).mind() == (Mind {
                weighed: old(self).mind().weighed + 1,
                ..old(self).mind()
            }),
            forall|s: Setup| #[trigger]
                plan::extends(s, final(self).setup()) ==> b == plan::found_short(
                    s,
                    old(self).mind().weighed,
                ) && plan::extends(s, old(self).setup()),
    {
        let used: u128 = self.start.elapsed().as_nanos();
        self.spent = Ghost(self.spent@.push(used));
        proof {
            assert(self.setup().worth =~= old(self).setup().worth);
            let n = old(self).mind().weighed;
            assert forall|s: Setup| #[trigger]
                plan::extends(s, self.setup()) implies s.spent[n] == used && plan::extends(
                s,
                old(self).setup(),
            ) by {
                assert(s.spent[n] == self.spent@[n]);
                assert forall|i: int| 0 <= i < n implies #[trigger] s.spent[i] == old(
                    self,
                ).spent@[i] by {
                    assert(s.spent[i] == self.spent@[i]);
                }
            }
        }
        time_is_short(self.deadline, used)
    }

    fn out_of_time(&mut self) -> (r: bool)
        requires
            old(self).wf(),
        ensures
            final(self).continues(*old(self)),
            forall|s: Setup| #[trigger]
                plan::extends(s, final(self).setup()) ==> (final(self).mind(), r) == plan::ask(
                    s,
                    old(self).mind(),
                ),
    {
        let outside: bool = self.outside_says_stop();
        let limit: bool = match self.node_limit {
            Some(n) => self.nodes >= n,
            None => false,
        };
        outside || limit
    }

    /// Counts a node and finds out whether the search is over.
    fn check_abort(&mut self) -> (r: bool)
        requires
            old(self).wf(),
        ensures
            final(self).continues(*old(self)),
            r == final(self).mind().aborted,
            forall|s: Setup| #[trigger]
                plan::extends(s, final(self).setup()) ==> final(self).mind() == plan::enter(
                    s,
                    old(self).mind(),
                ),
    {
        self.nodes = self.nodes.wrapping_add(1);
        let ghost counted = *self;
        proof {
            assert(counted.setup().worth =~= old(self).setup().worth);
        }
        if !self.aborted && self.nodes % 2048 == 0 {
            if self.out_of_time() {
                self.aborted = true;
            }
            proof {
                assert(self.setup().worth =~= old(self).setup().worth);
            }
        }
        self.aborted
    }
}

/// Windows and scores stay within this distance of zero.
spec fn bounded(x: int) -> bool {
    -1_000_000_000 <= x <= 1_000_000_000
}

/// A stored key is known from the position and its drift.
proof fn lemma_key(pos: Position)
    ensures
        pos.key == plan::key_of(pos@, pos.drift()),
{
    let (k, gk) = (pos.key, rules::game_key(pos@));
    assert((k ^ gk) ^ gk == k) by (bit_vector);
}

/// The position after a move.
fn advance(pos: &Position, mv: Move) -> (child: Position)
    requires
        pos.wf(),
        pos.ply < 200,
        plan::can_play(pos@, mv),
    ensures
        child.wf(),
        child@ == plan::next(pos@, mv),
        child.drift() == pos.drift(),
{
    proof {
        reveal(plan::can_play);
        reveal(plan::next);
    }
    let (child, _) = pos.after(mv);
    child
}

/// Scores of single captures stay within this distance of zero.
spec fn modest(scores: Seq<i32>) -> bool {
    forall|k: int| 0 <= k < scores.len() ==> -1_300_000 <= #[trigger] scores[k] <= 1_300_000
}

/// The captures of a position, rated by their material swing.
fn list_captures(pos: &Position) -> (list: MoveList)
    requires
        pos.wf(),
    ensures
        list.wf(),
        list.queue().moves == plan::considered(pos@, GenMode::Captures),
        list.queue().scores == plan::swings(pos@, list.queue().moves),
        modest(list.queue().scores),
        plan::all_playable(pos@, list.queue().moves),
{
    let ghost g = pos@;
    let ghost ms = plan::considered(g, GenMode::Captures);
    let mut list = MoveList::new();
    generate(pos, GenMode::Captures, &mut list);
    let mut i: usize = 0;
    while i < list.len
        invariant
            pos.wf(),
            g == pos@,
            list.wf(),
            list@ == ms,
            i <= list.len,
            forall|k: int| 0 <= k < i ==> #[trigger] list.scores@[k] == plan::swings(g, ms)[k],
            forall|k: int| 0 <= k < i ==> -1_300_000 <= #[trigger] list.scores@[k] <= 1_300_000,
        decreases list.len - i,
    {
        let mv: Move = list.moves[i];
        assert(mv == ms[i as int]);
        list.scores[i] = move_delta(pos, mv);
        i += 1;
    }
    proof {
        assert(list.queue().scores =~= plan::swings(g, ms));
        assert forall|k: int| 0 <= k < list.queue().scores.len() implies -1_300_000
            <= #[trigger] list.queue().scores[k] <= 1_300_000 by {
            assert(list.queue().scores[k] == list.scores@[k]);
        }
        plan::lemma_considered_playable(g, GenMode::Captures);
    }
    list
}

impl<E: Judge> Searcher<E> {
    // -----------------------------------------------------------------------
    // Quiescence — exact deltas do the pruning
    // -----------------------------------------------------------------------

    /// Notes the deepest ply.
    fn note_ply(&mut self, ply: usize)
        requires
            old(self).wf(),
            ply <= 127,
        ensures
            final(self).continues(*old(self)),
            final(self).mind() == plan::at_ply(old(self).mind(), ply as int),
            final(self).setup() == old(self).setup(),
    {
        if self.seldepth < ply as i32 {
            self.seldepth = ply as i32;
        }
        proof {
            assert(self.setup().worth =~= old(self).setup().worth);
        }
    }

    fn quiescence(&mut self, pos: &Position, alpha: i32, beta: i32, ply: usize) -> (r: i32)
        requires
            old(self).wf(),
            pos.wf(),
            bounded(alpha as int),
            bounded(beta as int),
            alpha < beta,
            ply <= 127,
        ensures
            final(self).continues(*old(self)),
            bounded(r as int),
            forall|s: Setup| #[trigger]
                plan::extends(s, final(self).setup()) ==> (final(self).mind(), r as int)
                    == plan::quiesce(
                    s,
                    old(self).mind(),
                    pos@,
                    alpha as int,
                    beta as int,
                    ply as int,
                ),
        decreases 128 - ply, 0int,
    {
        proof {
            reveal(plan::quiesce);
            reveal(plan::quiesce_moves);
        }
        if self.check_abort() {
            return 0;
        }
        self.note_ply(ply);
        let ghost s2 = *self;
        if let Some(r) = pos.result() {
            return terminal_score(r, pos.side, ply);
        }
        let stand_pat: i32 = self.options.evaluator.judge(pos);
        assert(stand_pat == (self.setup().worth)(pos@));
        if ply >= MAX_PLY - 1 || stand_pat >= beta {
            return stand_pat;
        }
        let mut list = list_captures(pos);
        if list.is_empty() {
            return stand_pat;
        }
        let floor: i32 = if stand_pat > alpha {
            stand_pat
        } else {
            alpha
        };
        let r: i32 = self.quiescence_moves(pos, &mut list, stand_pat, floor, beta, ply);
        proof {
            assert forall|s: Setup| #[trigger]
                plan::extends(s, self.setup()) implies (self.mind(), r as int) == plan::quiesce(
                s,
                old(self).mind(),
                pos@,
                alpha as int,
                beta as int,
                ply as int,
            ) by {
                assert(plan::extends(s, s2.setup()));
            }
        }
        r
    }

    fn quiescence_moves(
        &mut self,
        pos: &Position,
        list: &mut MoveList,
        stand_pat: i32,
        floor: i32,
        beta: i32,
        ply: usize,
    ) -> (r: i32)
        requires
            old(self).wf(),
            pos.wf(),
            pos.ply < 200,
            old(list).wf(),
            plan::all_playable(pos@, old(list).queue().moves),
            modest(old(list).queue().scores),
            bounded(stand_pat as int),
            bounded(floor as int),
            bounded(beta as int),
            floor < beta,
            ply < 127,
        ensures
            final(self).continues(*old(self)),
            bounded(r as int),
            forall|s: Setup| #[trigger]
                plan::extends(s, final(self).setup()) ==> (final(self).mind(), r as int)
                    == plan::quiesce_moves(
                    s,
                    old(self).mind(),
                    pos@,
                    old(list).queue(),
                    0,
                    stand_pat as int,
                    stand_pat as int,
                    floor as int,
                    beta as int,
                    ply as int,
                ),
        decreases 127 - ply, 1int,
    {
        let ghost g = pos@;
        let ghost m0 = self.mind();
        let ghost q0 = list.queue();
        let ghost (w, f0, b0, p0) = (stand_pat as int, floor as int, beta as int, ply as int);
        let mut alpha: i32 = floor;
        let mut best: i32 = stand_pat;
        let mut i: usize = 0;
        while i < list.len
            invariant
                self.continues(*old(self)),
                pos.wf(),
                pos.ply < 200,
                g == pos@,
                w == stand_pat,
                f0 == floor,
                b0 == beta,
                p0 == ply,
                m0 == old(self).mind(),
                q0 == old(list).queue(),
                list.wf(),
                i <= list.len,
                plan::all_playable(g, list.queue().moves),
                modest(list.queue().scores),
                bounded(w),
                bounded(alpha as int),
                bounded(b0),
                bounded(best as int),
                alpha < beta,
                ply < 127,
                forall|s: Setup| #[trigger]
                    plan::extends(s, self.setup()) ==> plan::quiesce_moves(
                        s,
                        m0,
                        g,
                        q0,
                        0,
                        w,
                        w,
                        f0,
                        b0,
                        p0,
                    ) == plan::quiesce_moves(
                        s,
                        self.mind(),
                        g,
                        list.queue(),
                        i as int,
                        w,
                        best as int,
                        alpha as int,
                        b0,
                        p0,
                    ),
            decreases list.len - i,
        {
            let ghost q = list.queue();
            let ghost sb = *self;
            pick_best(list, i);
            proof {
                plan::lemma_picked(g, q, i as int);
            }
            let mv: Move = list.moves[i];
            let delta: i32 = list.scores[i];
            assert(mv == list.queue().moves[i as int]);
            assert(delta == list.queue().scores[i as int]);
            let ghost (best0, alpha0) = (best as int, alpha as int);

            // Prune captures that lose material outright. A losing detonation can
            // still be right for the trailing side, but that is a strategic choice
            // for the main search, not for quiescence — except when it removes a
            // king, which `delta` scores enormously.
            if delta < 0 && stand_pat + delta + 200 <= alpha {
                proof {
                    assert forall|s: Setup| #[trigger]
                        plan::extends(s, self.setup()) implies plan::quiesce_moves(
                        s,
                        m0,
                        g,
                        q0,
                        0,
                        w,
                        w,
                        f0,
                        b0,
                        p0,
                    ) == plan::quiesce_moves(
                        s,
                        self.mind(),
                        g,
                        list.queue(),
                        i + 1,
                        w,
                        best0,
                        alpha0,
                        b0,
                        p0,
                    ) by {
                        plan::lemma_quiesce_skip(
                            s,
                            sb.mind(),
                            g,
                            q,
                            i as int,
                            w,
                            best0,
                            alpha0,
                            b0,
                            p0,
                        );
                    }
                }
                i += 1;
                continue;
            }
            let child = advance(pos, mv);
            let r: i32 = self.quiescence(&child, -beta, -alpha, ply + 1);
            let score: i32 = -r;
            if score > best {
                best = score;
            }
            if score > alpha {
                alpha = score;
            }
            proof {
                assert forall|s: Setup| #[trigger]
                    plan::extends(s, self.setup()) implies plan::quiesce_moves(
                    s,
                    m0,
                    g,
                    q0,
                    0,
                    w,
                    w,
                    f0,
                    b0,
                    p0,
                ) == if self.mind().aborted {
                    (self.mind(), 0int)
                } else if alpha >= beta {
                    (self.mind(), best as int)
                } else {
                    plan::quiesce_moves(
                        s,
                        self.mind(),
                        g,
                        list.queue(),
                        i + 1,
                        w,
                        best as int,
                        alpha as int,
                        b0,
                        p0,
                    )
                } by {
                    assert(plan::extends(s, sb.setup()));
                    plan::lemma_quiesce_try(
                        s,
                        sb.mind(),
                        g,
                        q,
                        i as int,
                        w,
                        best0,
                        alpha0,
                        b0,
                        p0,
                        self.mind(),
                        r as int,
                    );
                }
            }
            if self.aborted {
                return 0;
            }
            if alpha >= beta {
                return best;
            }
            i += 1;
        }
        proof {
            reveal(plan::quiesce_moves);
        }
        best
    }
}

/// The position after a pass.
fn pass(pos: &Position) -> (child: Position)
    requires
        pos.wf(),
        pos.ply < 200,
    ensures
        child.wf(),
        child@ == plan::passed(pos@),
        child.drift() == pos.drift(),
{
    let mut child = *pos;
    child.side = child.side.flip();
    child.key = child.key ^ zobrist_side();
    child.ply = child.ply + 1;
    proof {
        child.lemma_shows(pos@.board);
        rules::lemma_flip_drift(pos.key, rules::board_key(pos@.board), pos.side);
    }
    child
}

/// The side to move has a heavy piece.
fn has_heavy(pos: &Position) -> (b: bool)
    requires
        pos.wf(),
    ensures
        b <==> exists|x: int| #[trigger]
            rules::heavy_on(pos@, x) && rules::held_by(pos@, pos@.side, x),
{
    let own: u64 = pos.heavy_material_bb() & pos.occ_color[pos.side.index()];
    proof {
        bits::lemma_empty_board(own);
        assert forall|x: int| #[trigger] bits::bit(own, x) <==> rules::heavy_on(pos@, x)
            && rules::held_by(pos@, pos@.side, x) by {
            if geom::valid(x) {
                assert(bits::bit(pos.occ_color@[pos.side.code()], x) <==> (
                pos@.board[x] matches Some(m) && m.0.code() == pos.side.code()));
            }
        }
        if own != 0 {
            let x = choose|x: int| #[trigger] bits::bit(own, x);
            assert(rules::heavy_on(pos@, x));
        } else {
            assert forall|x: int| #[trigger] rules::heavy_on(pos@, x) implies !rules::held_by(
                pos@,
                pos@.side,
                x,
            ) by {
                assert(!bits::bit(own, x));
            }
        }
    }
    own != 0
}

impl<E: Judge> Searcher<E> {
    // -----------------------------------------------------------------------
    // Ordering
    // -----------------------------------------------------------------------

    /// Rates the moves of a list.
    fn score_moves(&self, pos: &Position, list: &mut MoveList, tt_move: Move, ply: usize)
        requires
            self.wf(),
            pos.wf(),
            old(list).wf(),
            ply < 127,
        ensures
            final(list).wf(),
            final(list).len == old(list).len,
            final(list)@ == old(list)@,
            final(list).queue().scores == plan::ratings(
                pos@,
                old(list)@,
                tt_move,
                self.mind().killers[ply as int],
                self.mind().history,
            ),
    {
        let killers: (Move, Move) = self.killers[ply];
        let ghost ms = list@;
        let ghost want = plan::ratings(
            pos@,
            ms,
            tt_move,
            self.mind().killers[ply as int],
            self.mind().history,
        );
        let mut i: usize = 0;
        while i < list.len
            invariant
                self.wf(),
                pos.wf(),
                list.wf(),
                list@ == ms,
                list.len == old(list).len,
                i <= list.len,
                killers == self.mind().killers[ply as int],
                want == plan::ratings(
                    pos@,
                    ms,
                    tt_move,
                    self.mind().killers[ply as int],
                    self.mind().history,
                ),
                forall|k: int| 0 <= k < i ==> #[trigger] list.scores@[k] == want[k],
            decreases list.len - i,
        {
            let mv: Move = list.moves[i];
            assert(mv == ms[i as int]);
            let score: i32 = if mv == tt_move {
                0x100_0000
            } else {
                // Exact material swing — strictly better information than a real
                // chess engine has at ordering time. Scaled well above history so
                // that any real capture outranks any quiet move.
                let delta: i32 = move_delta(pos, mv);
                if delta != 0 {
                    0x10_0000 + delta * 8
                } else if mv == killers.0 {
                    0x4_0000
                } else if mv == killers.1 {
                    0x3_ffff
                } else {
                    let h: i32 = self.history[mv.index()];
                    if h < 0x1_ffff {
                        h
                    } else {
                        0x1_ffff
                    }
                }
            };
            list.scores[i] = score;
            i += 1;
        }
        proof {
            assert(list.queue().scores =~= want);
        }
    }

    /// Credits a quiet move that has caused a cutoff.
    fn credit(&mut self, mv: Move, depth: i32, ply: usize)
        requires
            old(self).wf(),
            ply < 127,
        ensures
            final(self).continues(*old(self)),
            final(self).setup() == old(self).setup(),
            final(self).mind() == (Mind {
                killers: plan::with_killer(old(self).mind().killers, mv, ply as int),
                history: plan::with_history(old(self).mind().history, mv, depth as int),
                ..old(self).mind()
            }),
    {
        self.record_killer(mv, ply);
        let i: usize = mv.index();
        self.history[i] = self.history[i].wrapping_add(depth.wrapping_mul(depth));
        proof {
            assert(self.setup().worth =~= old(self).setup().worth);
            assert(self.mind().history =~= plan::with_history(
                old(self).mind().history,
                mv,
                depth as int,
            ));
        }
    }

    fn record_killer(&mut self, mv: Move, ply: usize)
        requires
            old(self).wf(),
        ensures
            final(self).continues(*old(self)),
            final(self).setup() == old(self).setup(),
            final(self).mind() == (Mind {
                killers: plan::with_killer(old(self).mind().killers, mv, ply as int),
                ..old(self).mind()
            }),
    {
        let p: usize = if ply < MAX_PLY - 1 {
            ply
        } else {
            MAX_PLY - 1
        };
        if self.killers[p].0 != mv {
            self.killers[p] = (mv, self.killers[p].0);
        }
        proof {
            assert(self.setup().worth =~= old(self).setup().worth);
            assert(self.mind().killers =~= plan::with_killer(
                old(self).mind().killers,
                mv,
                ply as int,
            ));
        }
    }

    /// Stores the outcome of a node.
    fn remember(&mut self, pos: &Position, best: Move, score: i32, depth: i32, bound: Bound, ply: usize)
        requires
            old(self).wf(),
            bounded(score as int),
            ply <= 127,
        ensures
            final(self).continues(*old(self)),
            final(self).setup() == old(self).setup(),
            final(self).mind() == plan::remember(
                old(self).mind(),
                pos@,
                pos.drift(),
                (plan::Best { score: score as int, mv: best, bound }),
                depth as int,
                ply as int,
            ),
    {
        proof {
            lemma_key(*pos);
        }
        let key: u64 = tt_key(pos);
        self.tt.store(key, best, to_tt_score(score, ply), depth, bound);
        proof {
            assert(self.setup().worth =~= old(self).setup().worth);
        }
    }

    // -----------------------------------------------------------------------
    // Negamax
    // -----------------------------------------------------------------------

    fn negamax(
        &mut self,
        pos: &Position,
        depth: i32,
        alpha: i32,
        beta: i32,
        ply: usize,
        is_pv: bool,
    ) -> (r: i32)
        requires
            old(self).wf(),
            pos.wf(),
            bounded(alpha as int),
            bounded(beta as int),
            alpha < beta,
            ply <= 127,
        ensures
            final(self).continues(*old(self)),
            bounded(r as int),
            forall|s: Setup| #[trigger]
                plan::extends(s, final(self).setup()) ==> (final(self).mind(), r as int)
                    == plan::negamax(
                    s,
                    old(self).mind(),
                    pos@,
                    pos.drift(),
                    depth as int,
                    alpha as int,
                    beta as int,
                    ply as int,
                    is_pv,
                ),
        decreases 128 - ply, 5int,
    {
        let ghost (g, d, m0) = (pos@, pos.drift(), self.mind());
        let ghost (dp, a0, b0, p0) = (depth as int, alpha as int, beta as int, ply as int);
        proof {
            lemma_key(*pos);
            reveal(plan::negamax);
            reveal(plan::negamax_open);
        }
        if self.check_abort() {
            return 0;
        }
        self.note_ply(ply);
        let ghost s2 = *self;
        // Terminal check first — the conditions are evaluated on the position as it
        // stands, and a game that is over has no moves worth generating.
        if let Some(r) = pos.result() {
            return terminal_score(r, pos.side, ply);
        }
        if ply >= MAX_PLY - 1 {
            let v: i32 = self.options.evaluator.judge(pos);
            assert(v == (self.setup().worth)(g));
            return v;
        }
        if depth <= 0 {
            let r: i32 = self.quiescence(pos, alpha, beta, ply);
            proof {
                assert forall|s: Setup| #[trigger]
                    plan::extends(s, self.setup()) implies (self.mind(), r as int)
                    == plan::negamax(s, m0, g, d, dp, a0, b0, p0, is_pv) by {
                    assert(plan::extends(s, s2.setup()));
                }
            }
            return r;
        }
        // --- transposition probe --------------------------------------------
        let mut tt_move: Move = Move(0);
        if let Some(e) = self.tt.probe(tt_key(pos)) {
            tt_move = e.mv;
            if !is_pv && e.depth as i32 >= depth {
                let v: i32 = from_tt_score(e.score as i32, ply);
                if e.bound == 0 || (e.bound == 1 && v >= beta) || (e.bound == 2 && v <= alpha) {
                    return v;
                }
            }
        }
        let r: i32 = self.open_node(pos, depth, alpha, beta, ply, is_pv, tt_move);
        proof {
            assert forall|s: Setup| #[trigger]
                plan::extends(s, self.setup()) implies (self.mind(), r as int) == plan::negamax(
                s,
                m0,
                g,
                d,
                dp,
                a0,
                b0,
                p0,
                is_pv,
            ) by {
                assert(plan::extends(s, s2.setup()));
            }
        }
        r
    }

    /// A node that the table does not settle.
    fn open_node(
        &mut self,
        pos: &Position,
        depth: i32,
        alpha: i32,
        beta: i32,
        ply: usize,
        is_pv: bool,
        tt_move: Move,
    ) -> (r: i32)
        requires
            old(self).wf(),
            pos.wf(),
            pos.ply < 200,
            bounded(alpha as int),
            bounded(beta as int),
            alpha < beta,
            depth > 0,
            ply < 127,
        ensures
            final(self).continues(*old(self)),
            bounded(r as int),
            forall|s: Setup| #[trigger]
                plan::extends(s, final(self).setup()) ==> (final(self).mind(), r as int)
                    == plan::negamax_open(
                    s,
                    old(self).mind(),
                    pos@,
                    pos.drift(),
                    depth as int,
                    alpha as int,
                    beta as int,
                    ply as int,
                    is_pv,
                    tt_move,
                ),
        decreases 128 - ply, 4int,
    {
        let ghost (g, d, m0) = (pos@, pos.drift(), self.mind());
        let ghost (dp, a0, b0, p0) = (depth as int, alpha as int, beta as int, ply as int);
        let ghost s0 = *self;
        let static_eval: i32 = self.options.evaluator.judge(pos);
        assert(static_eval == (self.setup().worth)(g));
        // --- null move (off by default) --------------------------------------
        if self.options.use_null_move && !is_pv && depth >= 3 && static_eval >= beta && has_heavy(
            pos,
        ) {
            let child = pass(pos);
            let reduced: i32 = depth - (2 + depth / 4) - 1;
            let r: i32 = self.negamax(&child, reduced, -beta, -beta + 1, ply + 1, false);
            let ghost s1 = *self;
            proof {
                assert forall|s: Setup| #[trigger]
                    plan::extends(s, self.setup()) implies plan::negamax_open(
                    s,
                    m0,
                    g,
                    d,
                    dp,
                    a0,
                    b0,
                    p0,
                    is_pv,
                    tt_move,
                ) == (if s1.mind().aborted {
                    (s1.mind(), 0int)
                } else if -r >= b0 {
                    (s1.mind(), b0)
                } else {
                    plan::negamax_all(s, s1.mind(), g, d, dp, a0, b0, p0, is_pv, tt_move)
                }) by {
                    assert(plan::extends(s, s0.setup()));
                    plan::lemma_open_pass(
                        s,
                        m0,
                        g,
                        d,
                        dp,
                        a0,
                        b0,
                        p0,
                        is_pv,
                        tt_move,
                        s1.mind(),
                        r as int,
                    );
                }
            }
            if self.aborted {
                return 0;
            }
            if -r >= beta {
                return beta;
            }
            let v: i32 = self.all_moves(pos, depth, alpha, beta, ply, is_pv, tt_move);
            proof {
                assert forall|s: Setup| #[trigger]
                    plan::extends(s, self.setup()) implies (self.mind(), v as int)
                    == plan::negamax_open(s, m0, g, d, dp, a0, b0, p0, is_pv, tt_move) by {
                    assert(plan::extends(s, s1.setup()));
                }
            }
            return v;
        }
        let v: i32 = self.all_moves(pos, depth, alpha, beta, ply, is_pv, tt_move);
        proof {
            assert forall|s: Setup| #[trigger]
                plan::extends(s, self.setup()) implies (self.mind(), v as int)
                == plan::negamax_open(s, m0, g, d, dp, a0, b0, p0, is_pv, tt_move) by {
                assert(plan::extends(s, s0.setup()));
                plan::lemma_open_plain(s, m0, g, d, dp, a0, b0, p0, is_pv, tt_move);
            }
        }
        v
    }

    /// All moves of a node.
    fn all_moves(
        &mut self,
        pos: &Position,
        depth: i32,
        alpha: i32,
        beta: i32,
        ply: usize,
        is_pv: bool,
        tt_move: Move,
    ) -> (r: i32)
        requires
            old(self).wf(),
            pos.wf(),
            pos.ply < 200,
            bounded(alpha as int),
            bounded(beta as int),
            alpha < beta,
            depth > 0,
            ply < 127,
        ensures
            final(self).continues(*old(self)),
            bounded(r as int),
            forall|s: Setup| #[trigger]
                plan::extends(s, final(self).setup()) ==> (final(self).mind(), r as int)
                    == plan::negamax_all(
                    s,
                    old(self).mind(),
                    pos@,
                    pos.drift(),
                    depth as int,
                    alpha as int,
                    beta as int,
                    ply as int,
                    is_pv,
                    tt_move,
                ),
        decreases 128 - ply, 3int,
    {
        let ghost (g, d, m0) = (pos@, pos.drift(), self.mind());
        let ghost (dp, a0, b0, p0) = (depth as int, alpha as int, beta as int, ply as int);
        let ghost s0 = *self;
        let mut list = MoveList::new();
        generate(pos, GenMode::Search, &mut list);
        if list.is_empty() {
            let v: i32 = self.options.evaluator.judge(pos);
            proof {
                assert(v == (self.setup().worth)(g));
                assert forall|s: Setup| #[trigger]
                    plan::extends(s, self.setup()) implies (self.mind(), v as int)
                    == plan::negamax_all(s, m0, g, d, dp, a0, b0, p0, is_pv, tt_move) by {
                    plan::lemma_all(s, m0, g, d, dp, a0, b0, p0, is_pv, tt_move);
                }
            }
            return v;
        }
        self.score_moves(pos, &mut list, tt_move, ply);
        proof {
            plan::lemma_considered_playable(g, GenMode::Search);
        }
        let r: i32 = self.try_moves(pos, &mut list, depth, alpha, beta, ply, is_pv);
        proof {
            assert forall|s: Setup| #[trigger]
                plan::extends(s, self.setup()) implies (self.mind(), r as int)
                == plan::negamax_all(s, m0, g, d, dp, a0, b0, p0, is_pv, tt_move) by {
                assert(plan::extends(s, s0.setup()));
                plan::lemma_all(s, m0, g, d, dp, a0, b0, p0, is_pv, tt_move);
            }
        }
        r
    }

    /// Looks at the rated moves of a node, the best first.
    fn try_moves(
        &mut self,
        pos: &Position,
        list: &mut MoveList,
        depth: i32,
        floor: i32,
        beta: i32,
        ply: usize,
        is_pv: bool,
    ) -> (r: i32)
        requires
            old(self).wf(),
            pos.wf(),
            pos.ply < 200,
            old(list).wf(),
            old(list).len > 0,
            plan::all_playable(pos@, old(list).queue().moves),
            bounded(floor as int),
            bounded(beta as int),
            floor < beta,
            depth > 0,
            ply < 127,
        ensures
            final(self).continues(*old(self)),
            bounded(r as int),
            forall|s: Setup| #[trigger]
                plan::extends(s, final(self).setup()) ==> (final(self).mind(), r as int)
                    == plan::negamax_moves(
                    s,
                    old(self).mind(),
                    pos@,
                    pos.drift(),
                    old(list).queue(),
                    0,
                    depth as int,
                    floor as int,
                    beta as int,
                    ply as int,
                    is_pv,
                    plan::Best {
                        score: -32_000,
                        mv: old(list).queue().moves[0],
                        bound: Bound::Upper,
                    },
                ),
        decreases 128 - ply, 2int,
    {
        let ghost (g, d, m0, q0) = (pos@, pos.drift(), self.mind(), list.queue());
        let ghost (dp, f0, b0, p0) = (depth as int, floor as int, beta as int, ply as int);
        let ghost best0 = plan::Best { score: -32_000, mv: q0.moves[0], bound: Bound::Upper };
        let mut alpha: i32 = floor;
        let mut best_score: i32 = -INFINITY;
        let mut best_move: Move = list.moves[0];
        let mut bound = Bound::Upper;
        let mut i: usize = 0;
        while i < list.len
            invariant
                self.continues(*old(self)),
                pos.wf(),
                pos.ply < 200,
                g == pos@,
                d == pos.drift(),
                m0 == old(self).mind(),
                q0 == old(list).queue(),
                dp == depth,
                f0 == floor,
                b0 == beta,
                p0 == ply,
                best0 == (plan::Best { score: -32_000, mv: q0.moves[0], bound: Bound::Upper }),
                list.wf(),
                i <= list.len,
                plan::all_playable(g, list.queue().moves),
                bounded(alpha as int),
                bounded(b0),
                bounded(best_score as int),
                alpha < beta,
                depth > 0,
                ply < 127,
                forall|s: Setup| #[trigger]
                    plan::extends(s, self.setup()) ==> plan::negamax_moves(
                        s,
                        m0,
                        g,
                        d,
                        q0,
                        0,
                        dp,
                        f0,
                        b0,
                        p0,
                        is_pv,
                        best0,
                    ) == plan::negamax_moves(
                        s,
                        self.mind(),
                        g,
                        d,
                        list.queue(),
                        i as int,
                        dp,
                        alpha as int,
                        b0,
                        p0,
                        is_pv,
                        plan::Best { score: best_score as int, mv: best_move, bound },
                    ),
            decreases list.len - i,
        {
            let ghost q = list.queue();
            let ghost sb = *self;
            let ghost bb = plan::Best { score: best_score as int, mv: best_move, bound };
            let ghost ab = alpha as int;
            pick_best(list, i);
            proof {
                plan::lemma_picked(g, q, i as int);
            }
            let mv: Move = list.moves[i];
            assert(mv == list.queue().moves[i as int]);
            let child = advance(pos, mv);

            // Late move reductions: quiet, late, non-tactical moves get a shallower
            // look first. Captures are never reduced — one blast decides games.
            let quiet: bool = !is_capture(pos, mv);
            let new_depth: i32 = self.first_depth(depth, i, quiet, is_pv);
            let score: i32 = self.look(&child, i, depth, new_depth, alpha, beta, ply, is_pv);
            let ghost s1 = *self;
            if score > best_score {
                best_score = score;
                best_move = mv;
            }
            if score > alpha {
                alpha = score;
                bound = Bound::Exact;
            }
            let ghost b1 = plan::Best { score: best_score as int, mv: best_move, bound };
            proof {
                assert(b1 == plan::improved(bb, score as int, mv, ab));
                assert forall|s: Setup| #[trigger]
                    plan::extends(s, self.setup()) implies plan::negamax_moves(
                    s,
                    m0,
                    g,
                    d,
                    q0,
                    0,
                    dp,
                    f0,
                    b0,
                    p0,
                    is_pv,
                    best0,
                ) == (if s1.mind().aborted {
                    (s1.mind(), 0int)
                } else if alpha >= beta {
                    (
                        plan::remember(
                            plan::credited(s1.mind(), g, mv, dp, p0),
                            g,
                            d,
                            plan::Best { bound: Bound::Lower, ..b1 },
                            dp,
                            p0,
                        ),
                        best_score as int,
                    )
                } else {
                    plan::negamax_moves(
                        s,
                        s1.mind(),
                        g,
                        d,
                        list.queue(),
                        i + 1,
                        dp,
                        alpha as int,
                        b0,
                        p0,
                        is_pv,
                        b1,
                    )
                }) by {
                    assert(plan::extends(s, sb.setup()));
                    plan::lemma_negamax_step(
                        s,
                        sb.mind(),
                        g,
                        d,
                        q,
                        i as int,
                        dp,
                        ab,
                        b0,
                        p0,
                        is_pv,
                        bb,
                        s1.mind(),
                        score as int,
                    );
                }
            }
            if self.aborted {
                return 0;
            }
            if alpha >= beta {
                if quiet {
                    self.credit(mv, depth, ply);
                }
                self.remember(pos, best_move, best_score, depth, Bound::Lower, ply);
                return best_score;
            }
            i += 1;
        }
        let ghost s2 = *self;
        self.remember(pos, best_move, best_score, depth, bound, ply);
        proof {
            assert forall|s: Setup| #[trigger]
                plan::extends(s, self.setup()) implies (self.mind(), best_score as int)
                == plan::negamax_moves(s, m0, g, d, q0, 0, dp, f0, b0, p0, is_pv, best0) by {
                assert(plan::extends(s, s2.setup()));
                plan::lemma_negamax_end(
                    s,
                    s2.mind(),
                    g,
                    d,
                    list.queue(),
                    i as int,
                    dp,
                    alpha as int,
                    b0,
                    p0,
                    is_pv,
                    plan::Best { score: best_score as int, mv: best_move, bound },
                );
            }
        }
        best_score
    }

    /// Depth for the `i`-th move.
    fn first_depth(&self, depth: i32, i: usize, quiet: bool, is_pv: bool) -> (d: i32)
        requires
            depth > 0,
            i < 512,
        ensures
            forall|s: Setup| #[trigger]
                plan::extends(s, self.setup()) ==> d == plan::first_depth(
                    s,
                    depth as int,
                    i as int,
                    quiet,
                    is_pv,
                ),
    {
        if self.options.use_lmr && depth >= 3 && i >= 4 && quiet && !is_pv {
            let late: usize = if i / 12 < 2 {
                i / 12
            } else {
                2
            };
            let d: i32 = depth - 1 - (1 + late as i32);
            if d < 1 {
                1
            } else {
                d
            }
        } else {
            depth - 1
        }
    }

    /// The score of the `i`-th move, which leads to `child`.
    fn look(
        &mut self,
        child: &Position,
        i: usize,
        depth: i32,
        new_depth: i32,
        alpha: i32,
        beta: i32,
        ply: usize,
        is_pv: bool,
    ) -> (r: i32)
        requires
            old(self).wf(),
            child.wf(),
            bounded(alpha as int),
            bounded(beta as int),
            alpha < beta,
            depth > 0,
            ply < 127,
        ensures
            final(self).continues(*old(self)),
            bounded(r as int),
            forall|s: Setup| #[trigger]
                plan::extends(s, final(self).setup()) ==> (final(self).mind(), r as int)
                    == plan::look(
                    s,
                    old(self).mind(),
                    child@,
                    child.drift(),
                    i as int,
                    depth as int,
                    new_depth as int,
                    alpha as int,
                    beta as int,
                    ply as int,
                    is_pv,
                ),
        decreases 128 - ply, 1int,
    {
        let ghost (g, d, m0) = (child@, child.drift(), self.mind());
        let ghost (dp, nd, a0, b0, p0) = (
            depth as int,
            new_depth as int,
            alpha as int,
            beta as int,
            ply as int,
        );
        if i == 0 {
            let r: i32 = self.negamax(child, new_depth, -beta, -alpha, ply + 1, is_pv);
            proof {
                assert forall|s: Setup| #[trigger]
                    plan::extends(s, self.setup()) implies (self.mind(), -r as int) == plan::look(
                    s,
                    m0,
                    g,
                    d,
                    0,
                    dp,
                    nd,
                    a0,
                    b0,
                    p0,
                    is_pv,
                ) by {
                    plan::lemma_look_first(
                        s,
                        m0,
                        g,
                        d,
                        dp,
                        nd,
                        a0,
                        b0,
                        p0,
                        is_pv,
                        self.mind(),
                        r as int,
                    );
                }
            }
            return -r;
        }
        let r: i32 = self.negamax(child, new_depth, -alpha - 1, -alpha, ply + 1, false);
        let ghost s1 = *self;
        if -r > alpha && (new_depth < depth - 1 || -r < beta) {
            let r2: i32 = self.negamax(child, depth - 1, -beta, -alpha, ply + 1, is_pv);
            proof {
                assert forall|s: Setup| #[trigger]
                    plan::extends(s, self.setup()) implies (self.mind(), -r2 as int) == plan::look(
                    s,
                    m0,
                    g,
                    d,
                    i as int,
                    dp,
                    nd,
                    a0,
                    b0,
                    p0,
                    is_pv,
                ) by {
                    assert(plan::extends(s, s1.setup()));
                    plan::lemma_look_twice(
                        s,
                        m0,
                        g,
                        d,
                        i as int,
                        dp,
                        nd,
                        a0,
                        b0,
                        p0,
                        is_pv,
                        s1.mind(),
                        r as int,
                        self.mind(),
                        r2 as int,
                    );
                }
            }
            return -r2;
        }
        proof {
            assert forall|s: Setup| #[trigger]
                plan::extends(s, self.setup()) implies (self.mind(), -r as int) == plan::look(
                s,
                m0,
                g,
                d,
                i as int,
                dp,
                nd,
                a0,
                b0,
                p0,
                is_pv,
            ) by {
                plan::lemma_look_once(
                    s,
                    m0,
                    g,
                    d,
                    i as int,
                    dp,
                    nd,
                    a0,
                    b0,
                    p0,
                    is_pv,
                    self.mind(),
                    r as int,
                );
            }
        }
        -r
    }
}

// ---------------------------------------------------------------------------
// Iterative deepening
// ---------------------------------------------------------------------------

/// Where a search stands between two looks at the root.
pub struct Progress {
    pub result: SearchResult,
    pub alpha: i32,
    pub beta: i32,
    pub depth: i32,
    pub max_depth: i32,
    /// How often the root may still be searched again within the full window.
    pub tries: u64,
    pub done: bool,
}

impl View for Progress {
    type V = plan::Deepening;

    open spec fn view(&self) -> plan::Deepening {
        plan::Deepening {
            run: self.result@,
            alpha: self.alpha as int,
            beta: self.beta as int,
            depth: self.depth as int,
            tries: self.tries,
            done: self.done,
        }
    }
}

impl Progress {
    pub open spec fn wf(self) -> bool {
        &&& -40_000 <= self.alpha < self.beta <= 40_000
        &&& 1 <= self.depth
        &&& -40_000 <= self.result.score <= 40_000
        &&& 0 <= self.result.depth
        &&& 0 <= self.result.seldepth
    }

    /// Another look at the root is due.
    pub open spec fn goes_on(self) -> bool {
        !self.done && self.depth <= self.max_depth
    }
}

/// The key is among `keys`.
fn has_key(keys: &Vec<u64>, key: u64) -> (b: bool)
    ensures
        b == keys@.contains(key),
{
    let mut i: usize = 0;
    while i < keys.len()
        invariant
            i <= keys.len(),
            forall|k: int| 0 <= k < i ==> #[trigger] keys@[k] != key,
        decreases keys.len() - i,
    {
        if keys[i] == key {
            return true;
        }
        i += 1;
    }
    false
}

fn quarter(x: i32) -> (r: i32)
    ensures
        r == plan::quarter(x as int),
{
    if x < 0 {
        (-((-(x as i64)) / 4)) as i32
    } else {
        x / 4
    }
}

impl<E: Judge> Searcher<E> {
    /// The line that the table remembers from a position on.
    fn extract_pv(&self, pos: &Position, max: i32) -> (pv: Vec<Move>)
        requires
            self.wf(),
            pos.wf(),
            max >= 1,
        ensures
            pv@ == plan::line(
                self.mind().entries,
                pos@,
                pos.drift(),
                (if max < 32 {
                    max as int
                } else {
                    32
                }) as nat,
                Seq::empty(),
            ),
    {
        let n: i32 = if max < 32 {
            max
        } else {
            32
        };
        let mut pv: Vec<Move> = Vec::new();
        let mut seen: Vec<u64> = Vec::new();
        let mut p: Position = *pos;
        let mut i: i32 = 0;
        let ghost entries = self.mind().entries;
        let ghost d = pos.drift();
        let ghost whole = plan::line(entries, pos@, d, n as nat, Seq::empty());
        assert(pv@ + whole =~= whole);
        assert(seen@ =~= Seq::<u64>::empty());
        while i < n
            invariant_except_break
                self.wf(),
                entries == self.mind().entries,
                0 <= i <= n,
                p.wf(),
                p.drift() == d,
                whole == pv@ + plan::line(entries, p@, d, (n - i) as nat, seen@),
            ensures
                whole == pv@,
            decreases n - i,
        {
            let ghost rest = plan::line(entries, p@, d, (n - i) as nat, seen@);
            proof {
                lemma_key(p);
                assert(pv@ + Seq::<Move>::empty() =~= pv@);
            }
            if p.result().is_some() {
                break;
            }
            let mv: Move = match self.tt.probe(tt_key(&p)) {
                Some(e) => e.mv,
                None => {
                    break;
                },
            };
            if mv == Move(0) {
                break;
            }
            // Guard against a table collision producing an illegal continuation.
            let mut list = MoveList::new();
            generate(&p, GenMode::Search, &mut list);
            if !list.contains(mv) {
                break;
            }
            if has_key(&seen, p.key) {
                break;
            }
            proof {
                plan::lemma_considered_playable(p@, GenMode::Search);
                let ms = plan::considered(p@, GenMode::Search);
                let k = choose|k: int| 0 <= k < ms.len() && ms[k] == mv;
                assert(plan::can_play(p@, ms[k]));
            }
            let child = advance(&p, mv);
            let ghost tail = plan::line(entries, child@, d, (n - i - 1) as nat, seen@.push(p.key));
            assert(rest == seq![mv] + tail);
            assert(pv@ + (seq![mv] + tail) =~= pv@.push(mv) + tail);
            seen.push(p.key);
            pv.push(mv);
            p = child;
            i += 1;
        }
        pv
    }

    /// Starts a search.
    pub fn begin(&mut self, pos: &Position, limits: &SearchLimits) -> (p: Progress)
        requires
            old(self).wf(),
            pos.wf(),
        ensures
            final(self).wf(),
            final(self).choices() == old(self).choices(),
            final(self).flag() == old(self).flag(),
            final(self).alone() == old(self).alone(),
            final(self).given(*limits),
            final(self).mind() == plan::begun(old(self).mind()),
            p@ == plan::first_window(pos@),
            p.wf(),
            p.max_depth == last_depth(*limits),
            p.result.elapsed == 0,
    {
        self.start = Instant::now();
        self.nodes = 0;
        self.seldepth = 0;
        self.aborted = false;
        self.deadline = match limits.movetime {
            Some(ms) => Some(ms as u128 * 1_000_000),
            None => None,
        };
        self.node_limit = limits.nodes;
        lower(&self.stop);
        self.answers = Ghost(Seq::empty());
        self.spent = Ghost(Seq::empty());
        self.tt.new_generation();
        let mut i: usize = 0;
        let ghost h = self.history@;
        let ghost before = *self;
        while i < self.history.len()
            invariant
                i <= self.history@.len(),
                h.len() == 4096,
                *self == (Searcher { history: self.history, ..before }),
                self.history@.len() == 4096,
                forall|k: int| 0 <= k < i ==> #[trigger] self.history@[k] == plan::quarter(
                    h[k] as int,
                ),
                forall|k: int| i <= k < 4096 ==> #[trigger] self.history@[k] == h[k],
            decreases self.history.len() - i,
        {
            self.history[i] = quarter(self.history[i]);
            i += 1;
        }
        proof {
            assert(self.history@ =~= plan::begun(old(self).mind()).history);
        }
        let max_depth: i32 = match limits.depth {
            Some(d) => d,
            None => MAX_PLY as i32 - 8,
        };
        let mut result = SearchResult::default();
        // A side with a king always has a move, so start from the first one to
        // guarantee we never return a null move even if depth 1 is interrupted.
        let mut root_moves = MoveList::new();
        generate(pos, GenMode::Search, &mut root_moves);
        let done: bool = root_moves.is_empty();
        if !done {
            result.best = root_moves.moves[0];
        }
        let p = Progress {
            result,
            alpha: -INFINITY,
            beta: INFINITY,
            depth: 1,
            max_depth,
            tries: u64::MAX,
            done,
        };
        assert(p@ =~= plan::first_window(pos@));
        p
    }

    /// Searches the root once more.
    pub fn step(&mut self, pos: &Position, p: &mut Progress)
        requires
            old(self).wf(),
            pos.wf(),
            old(p).wf(),
            old(p).goes_on(),
        ensures
            final(self).wf(),
            final(self).choices() == old(self).choices(),
            final(self).flag() == old(self).flag(),
            final(self).alone() == old(self).alone(),
            final(self).same_search(*old(self)),
            final(p).wf(),
            final(p).max_depth == old(p).max_depth,
            forall|s: Setup| #[trigger]
                plan::extends(s, final(self).setup()) ==> (final(self).mind(), final(p)@)
                    == plan::deepen(
                    s,
                    old(self).mind(),
                    pos@,
                    pos.drift(),
                    old(p)@,
                    old(p).max_depth as int,
                ),
    {
        let ghost (m0, d0, g, drift) = (self.mind(), p@, pos@, pos.drift());
        let (depth, alpha, beta): (i32, i32, i32) = (p.depth, p.alpha, p.beta);
        let score: i32 = self.negamax(pos, depth, alpha, beta, 0, true);
        let ghost s1 = *self;
        if self.aborted {
            p.done = true;
            assert(p@ =~= (plan::Deepening { done: true, ..d0 }));
            return;
        }
        // Aspiration window: search again wider on a fail high or low.
        if score <= alpha || score >= beta {
            if alpha == -INFINITY && beta == INFINITY {
                let endless: bool = self.alone && self.deadline.is_none()
                    && self.node_limit.is_none();
                p.done = endless || p.tries == 0;
                if p.tries > 0 {
                    p.tries -= 1;
                }
            }
            p.alpha = -INFINITY;
            p.beta = INFINITY;
            return;
        }
        let pv: Vec<Move> = self.extract_pv(pos, depth);
        p.result.score = score;
        p.result.depth = depth;
        p.result.seldepth = self.seldepth;
        p.result.nodes = self.nodes;
        p.result.elapsed = self.start.elapsed().as_nanos();
        if pv.len() > 0 {
            p.result.best = pv[0];
        }
        p.result.pv = pv;
        // A forced result is not going to change with more depth.
        if score >= MATE_THRESHOLD || score <= -MATE_THRESHOLD {
            p.done = true;
            return;
        }
        let stop: bool = self.out_of_time();
        let ghost s2 = *self;
        // Do not start an iteration we have no chance of finishing.
        let mut short: bool = false;
        if !stop && depth >= 4 && self.deadline.is_some() {
            short = self.time_is_short();
        }
        if stop || short || depth >= p.max_depth {
            p.done = true;
        } else {
            p.alpha = score - 40;
            p.beta = score + 40;
            p.depth = depth + 1;
        }
        proof {
            assert forall|s: Setup| #[trigger]
                plan::extends(s, self.setup()) implies (self.mind(), p@) == plan::deepen(
                s,
                m0,
                g,
                drift,
                d0,
                p.max_depth as int,
            ) by {
                assert(plan::extends(s, s2.setup()));
                assert(plan::extends(s, s1.setup()));
            }
        }
    }

    /// Ends a search.
    pub fn finish(&self, p: Progress) -> (r: SearchResult)
        requires
            self.wf(),
        ensures
            r@ == (Run { nodes: self.mind().nodes, ..p@.run }),
            r.score == p.result.score,
    {
        let mut result = p.result;
        result.nodes = self.nodes;
        result.elapsed = self.start.elapsed().as_nanos();
        result
    }

    /// Searches a position within limits.
    pub fn search(&mut self, pos: &Position, limits: &SearchLimits) -> (r: SearchResult)
        requires
            old(self).wf(),
            pos.wf(),
        ensures
            final(self).wf(),
            final(self).choices() == old(self).choices(),
            final(self).flag() == old(self).flag(),
            final(self).alone() == old(self).alone(),
            final(self).given(*limits),
            (final(self).mind(), r@) == plan::search(
                final(self).setup(),
                old(self).mind(),
                pos@,
                pos.drift(),
                last_depth(*limits),
            ),
            plan::considered(pos@, GenMode::Search).len() > 0 ==> plan::sound(pos@, r@),
            -40_000 <= r.score <= 40_000,
            0 <= r.depth,
            0 <= r.seldepth,
    {
        let mut p = self.begin(pos, limits);
        let ghost (m0, d0, g, drift) = (self.mind(), p@, pos@, pos.drift());
        let ghost last = last_depth(*limits);
        while !p.done && p.depth <= p.max_depth
            invariant
                self.wf(),
                self.choices() == old(self).choices(),
                self.flag() == old(self).flag(),
                self.alone() == old(self).alone(),
                self.given(*limits),
                pos.wf(),
                g == pos@,
                drift == pos.drift(),
                p.wf(),
                p.max_depth == last,
                forall|s: Setup| #[trigger]
                    plan::extends(s, self.setup()) ==> plan::deepen_all(s, m0, g, drift, d0, last)
                        == plan::deepen_all(s, self.mind(), g, drift, p@, last),
            decreases
                    last - p.depth,
                    if p.done {
                        0int
                    } else if p.alpha == -32_000 && p.beta == 32_000 {
                        1int
                    } else {
                        2int
                    },
                    p.tries,
        {
            let ghost sb = *self;
            let ghost db = p@;
            self.step(pos, &mut p);
            proof {
                assert(plan::extends(self.setup(), self.setup()));
                assert forall|s: Setup| #[trigger]
                    plan::extends(s, self.setup()) implies plan::deepen_all(
                    s,
                    m0,
                    g,
                    drift,
                    d0,
                    last,
                ) == plan::deepen_all(s, self.mind(), g, drift, p@, last) by {
                    assert(plan::extends(s, sb.setup()));
                }
            }
        }
        let r = self.finish(p);
        proof {
            assert(plan::extends(self.setup(), self.setup()));
            if plan::considered(g, GenMode::Search).len() > 0 {
                plan::law_a_search_finds_a_move(self.setup(), old(self).mind(), g, drift, last);
            }
        }
        r
    }

    /// The current search has these limits.
    pub open spec fn given(self, limits: SearchLimits) -> bool {
        &&& suits(
            self.setup(),
            worth_of(self.choices().evaluator),
            self.choices().use_null_move,
            self.choices().use_lmr,
            limits,
            self.alone(),
        )
        &&& self.setup().answers.len() == self.mind().asked
        &&& self.setup().spent.len() == self.mind().weighed
    }

    /// The searcher is still at the same search, with the answers so far in place.
    pub open spec fn same_search(self, o: Self) -> bool {
        plan::extends(self.setup(), o.setup())
    }
}

/// The last depth that a search goes to.
pub open spec fn last_depth(limits: SearchLimits) -> int {
    match limits.depth {
        Some(d) => d as int,
        None => 120,
    }
}

/// How long a search may take, in nanoseconds.
pub open spec fn time_limit(limits: SearchLimits) -> Option<u128> {
    match limits.movetime {
        Some(ms) => Some((ms * 1_000_000) as u128),
        None => None,
    }
}

/// A setup with an evaluation, options and limits, on its own or not.
pub open spec fn suits(
    s: Setup,
    worth: spec_fn(Game) -> int,
    null_move: bool,
    lmr: bool,
    limits: SearchLimits,
    alone: bool,
) -> bool {
    &&& s.worth == worth
    &&& s.null_move == null_move
    &&& s.lmr == lmr
    &&& s.node_limit == limits.nodes
    &&& s.deadline == time_limit(limits)
    &&& s.alone == alone
}

/// A time limit is in milliseconds. A search with one is told to stop once that many
/// millions of nanoseconds have gone, and starts no iteration once two thirds of them
/// have; one without goes by the flag alone. A search on its own goes by neither.
pub proof fn law_limits_are_kept(
    s: Setup,
    worth: spec_fn(Game) -> int,
    null_move: bool,
    lmr: bool,
    limits: SearchLimits,
    alone: bool,
    i: int,
)
    requires
        suits(s, worth, null_move, lmr, limits, alone),
    ensures
        s.node_limit == limits.nodes,
        limits.movetime is None ==> plan::told_to_stop(s, i) == (!alone && s.answers[i].raised)
            && !plan::found_short(s, i),
        limits.movetime matches Some(ms) ==> {
            &&& plan::told_to_stop(s, i) == (!alone && s.answers[i].raised || s.answers[i].used >= ms
                * 1_000_000)
            &&& 3 * s.spent[i] > 2 * (ms * 1_000_000) + 1 ==> plan::found_short(s, i)
            &&& 3 * s.spent[i] <= 2 * (ms * 1_000_000) ==> !plan::found_short(s, i)
        },
        limits.depth is None ==> last_depth(limits) == 120,
        limits.depth matches Some(d) ==> last_depth(limits) == d,
{
}

/// A search that nobody else can stop and that has no time limit is repeatable: with the
/// same evaluation, options, limits and memory it always finds the same.
pub proof fn law_lone_searches_are_repeatable(
    s: Setup,
    t: Setup,
    m: Mind,
    n: Mind,
    worth: spec_fn(Game) -> int,
    null_move: bool,
    lmr: bool,
    limits: SearchLimits,
    g: Game,
    drift: u64,
)
    requires
        suits(s, worth, null_move, lmr, limits, true),
        suits(t, worth, null_move, lmr, limits, true),
        limits.movetime is None,
        plan::begun(m) == plan::begun(n),
    ensures
        plan::search(s, m, g, drift, last_depth(limits)) == plan::search(
            t,
            n,
            g,
            drift,
            last_depth(limits),
        ),
{
    let d = last_depth(limits);
    plan::law_lone_searches_are_undisturbed(
        s,
        plan::begun(m),
        plan::search(s, m, g, drift, d).0,
    );
    plan::law_lone_searches_are_undisturbed(
        t,
        plan::begun(m),
        plan::search(t, m, g, drift, d).0,
    );
    plan::law_searches_are_reproducible(s, t, m, g, drift, d);
}

/// Convenience for one-shot searches.
pub fn best_move(pos: &Position, limits: &SearchLimits, ev: Evaluator) -> (r: SearchResult)
    requires
        pos.wf(),
    ensures
        exists|s: Setup, m: Mind|
            suits(s, worth_of(ev), false, true, *limits, true) && plan::fresh(m, table_size(64))
                && r@ == (#[trigger] plan::search(s, m, pos@, pos.drift(), last_depth(*limits))).1,
        plan::considered(pos@, GenMode::Search).len() > 0 ==> plan::sound(pos@, r@),
        -40_000 <= r.score <= 40_000,
        0 <= r.depth,
        0 <= r.seldepth,
{
    let mut s = Searcher::unshared(SearchOptions::with_evaluator(ev));
    let ghost m = s.mind();
    let r = s.search(pos, limits);
    assert(suits(s.setup(), worth_of(ev), false, true, *limits, true));
    r
}

} // verus!
