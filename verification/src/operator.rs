//! Operator mode.
//!
//! You are the interface between this engine and your opponent's: you type their move,
//! the engine replies with its own. What is kept here is the game so far, what a typed
//! line asks for, and what is said in answer; reading and printing are left to others.
//!
//! After every move the report lists what was destroyed and which squares were emptied.
//! A blast clears up to nine squares; if the two engines disagree about any rule the
//! boards diverge silently and neither player notices for many moves. Saying what was
//! destroyed lets your opponent compare against their own output immediately.

use vstd::prelude::*;
use vstd::string::*;
use crate::bits;
use crate::bits::Bitboard;
use crate::fen;
use crate::laws;
use crate::movegen;
use crate::movegen::{GenMode, generate_vec};
use crate::plan;
use crate::position;
use crate::position::{MoveInfo, Position};
use crate::rules;
use crate::rules::Game;
use crate::search;
use crate::search::{Judge, SearchLimits, SearchResult, Searcher};
use crate::text;
use crate::text::{
    chars_of, join_texts, parse_i32, parse_number, push_decimal, sort_texts, split_words, to_lower,
};
use crate::types;
use crate::types::{Color, Move, PieceType, piece_char, piece_type_of, square_list, square_name};

verus! {

broadcast use {
    crate::bits::group_bits,
    crate::types::lemma_man_of_code,
    crate::types::lemma_man_code_of,
};

// ---------------------------------------------------------------------------
// Reports
// ---------------------------------------------------------------------------

/// What stands on `s`, with the name of the square.
pub open spec fn man_text(g: Game, s: int) -> Seq<char> {
    match g.board[s] {
        None => seq!['?'],
        Some(m) => seq![types::man_char(m)] + types::name_of_square(s),
    }
}

fn piece_letter(pos: &Position, s: usize) -> (r: String)
    requires
        pos.wf(),
        s < 64,
    ensures
        r@ == man_text(pos@, s as int),
{
    let mut out: String = String::new();
    match pos.piece_at(s) {
        None => {
            out.push('?');
        },
        Some(p) => {
            out.push(piece_char(p));
            out.append(square_name(s).as_str());
        },
    }
    assert(out@ =~= man_text(pos@, s as int));
    out
}

/// What kind of move it was.
pub open spec fn kind_text(kind: PieceType, taken: int, died: bool) -> Seq<char> {
    match kind {
        PieceType::Pawn => "teleport"@,
        PieceType::Knight => if taken != 0 {
            "knight sweep, "@ + text::decimal(taken as nat) + " taken"@
        } else {
            "knight sweep"@
        },
        PieceType::Bishop | PieceType::Rook => if died {
            "DETONATION"@
        } else {
            "quiet slide"@
        },
        PieceType::Queen => if taken != 0 {
            "queen sweep, "@ + text::decimal(taken as nat) + " taken"@
        } else {
            "queen slide"@
        },
        PieceType::King => if taken != 0 {
            "king capture"@
        } else {
            "king step"@
        },
    }
}

fn push_kind(out: &mut String, kind: PieceType, captured: Bitboard, died: bool)
    ensures
        final(out)@ == old(out)@ + kind_text(kind, bits::popcount(captured), died),
{
    let taken: u32 = captured.count_ones();
    match kind {
        PieceType::Pawn => {
            out.append("teleport");
        },
        PieceType::Knight => {
            if taken != 0 {
                out.append("knight sweep, ");
                push_decimal(out, taken as u128);
                out.append(" taken");
            } else {
                out.append("knight sweep");
            }
        },
        PieceType::Bishop | PieceType::Rook => {
            if died {
                out.append("DETONATION");
            } else {
                out.append("quiet slide");
            }
        },
        PieceType::Queen => {
            if taken != 0 {
                out.append("queen sweep, ");
                push_decimal(out, taken as u128);
                out.append(" taken");
            } else {
                out.append("queen slide");
            }
        },
        PieceType::King => {
            if taken != 0 {
                out.append("king capture");
            } else {
                out.append("king step");
            }
        },
    }
    assert(out@ =~= old(out)@ + kind_text(kind, bits::popcount(captured), died));
}

/// What stands on the squares of `b` below `n`.
pub open spec fn men_on(g: Game, b: u64, n: nat) -> Seq<Seq<char>>
    decreases n,
{
    if n == 0 {
        Seq::empty()
    } else if bits::bit(b, n - 1) {
        men_on(g, b, (n - 1) as nat).push(man_text(g, n - 1))
    } else {
        men_on(g, b, (n - 1) as nat)
    }
}

/// What a move destroyed, in the order of the dictionary; the mover, if it died, is
/// marked.
pub open spec fn victims(g: Game, mv: Move, info: MoveInfo) -> Seq<Seq<char>> {
    let taken = men_on(g, info.captured, 64);
    text::sorted(
        if info.mover_died {
            taken.push(man_text(g, mv.src()) + " (mover)"@)
        } else {
            taken
        },
    )
}

/// A list as text, or a dash for an empty one.
pub open spec fn or_dash(t: Seq<char>) -> Seq<char> {
    if t.len() == 0 {
        "-"@
    } else {
        t
    }
}

/// The report on a move of `who`, made in the game `g`.
pub open spec fn report_text(g: Game, mv: Move, info: MoveInfo, who: Seq<char>) -> Seq<char> {
    "\n"@ + who + " plays "@ + types::move_text(mv) + "   ["@ + kind_text(
        types::man_of(info.piece as int).1,
        bits::popcount(info.captured),
        info.mover_died,
    ) + "]\n  destroyed: "@ + or_dash(text::joined(victims(g, mv, info))) + "\n  emptied:   "@
        + or_dash(types::square_names(info.emptied, 64)) + "\n"@
}

/// There is one name for each man.
proof fn lemma_men_named(g: Game, b: u64, n: nat)
    ensures
        men_on(g, b, n).len() == bits::count_below(|s: int| bits::bit(b, s), n),
        forall|s: int|
            0 <= s < n && #[trigger] bits::bit(b, s) ==> men_on(g, b, n).contains(man_text(g, s)),
    decreases n,
{
    if n > 0 {
        let less = men_on(g, b, (n - 1) as nat);
        let all = men_on(g, b, n);
        lemma_men_named(g, b, (n - 1) as nat);
        assert forall|s: int| 0 <= s < n && #[trigger] bits::bit(b, s) implies all.contains(
            man_text(g, s),
        ) by {
            if s < n - 1 {
                let i = choose|i: int| 0 <= i < less.len() && less[i] == man_text(g, s);
                assert(all[i] == less[i]);
            } else {
                assert(all[all.len() - 1] == man_text(g, s));
            }
        }
    }
}

/// The report on a move names every man that was taken, and the mover if it died, each
/// with its square; it names as many as there were, in the order of the dictionary.
pub proof fn law_reports_name_the_fallen(g: Game, mv: Move, info: MoveInfo)
    ensures
        ({
            let named = victims(g, mv, info);
            &&& named.len() == bits::popcount(info.captured) + if info.mover_died {
                1int
            } else {
                0int
            }
            &&& forall|s: int, m: types::Man|
                0 <= s < 64 && bits::bit(info.captured, s) && #[trigger] rules::stands(g, m, s)
                    ==> named.contains(seq![types::man_char(m)] + types::name_of_square(s))
            &&& info.mover_died ==> named.contains(man_text(g, mv.src()) + " (mover)"@)
            &&& forall|i: int, j: int|
                0 <= i <= j < named.len() ==> text::in_order(
                    #[trigger] named[i],
                    #[trigger] named[j],
                )
        }),
{
    let taken = men_on(g, info.captured, 64);
    let mover = man_text(g, mv.src()) + " (mover)"@;
    let all = if info.mover_died {
        taken.push(mover)
    } else {
        taken
    };
    let named = victims(g, mv, info);
    lemma_men_named(g, info.captured, 64);
    text::law_sorted(all);
    assert forall|s: int, m: types::Man|
        0 <= s < 64 && bits::bit(info.captured, s) && #[trigger] rules::stands(
            g,
            m,
            s,
        ) implies named.contains(seq![types::man_char(m)] + types::name_of_square(s)) by {
        let t = man_text(g, s);
        let i = choose|i: int| 0 <= i < taken.len() && taken[i] == t;
        assert(all[i] == t);
        vstd::seq_lib::to_multiset_contains(all, t);
        vstd::seq_lib::to_multiset_contains(named, t);
    }
    if info.mover_died {
        assert(all[all.len() - 1] == mover);
        vstd::seq_lib::to_multiset_contains(all, mover);
        vstd::seq_lib::to_multiset_contains(named, mover);
    }
}

fn list_men(pos: &Position, b: Bitboard) -> (v: Vec<String>)
    requires
        pos.wf(),
    ensures
        text::strings(v@) == men_on(pos@, b, 64),
{
    let mut v: Vec<String> = Vec::new();
    let mut s: usize = 0;
    assert(text::strings(v@) =~= men_on(pos@, b, 0));
    while s < 64
        invariant
            s <= 64,
            pos.wf(),
            text::strings(v@) == men_on(pos@, b, s as nat),
        decreases 64 - s,
    {
        let ghost before = text::strings(v@);
        if types::in_board(b, s) {
            let t: String = piece_letter(pos, s);
            let ghost word = t@;
            v.push(t);
            assert(text::strings(v@) =~= before.push(word));
        }
        s += 1;
    }
    v
}

fn push_or_dash(out: &mut String, t: &str)
    ensures
        final(out)@ == old(out)@ + or_dash(t@),
{
    let n: usize = chars_of(t).len();
    if n == 0 {
        out.append("-");
    } else {
        out.append(t);
    }
}

/// Reports a move made in `before`: what kind it was, what it destroyed and which squares
/// it emptied. Identities are read from the board before the move.
pub fn move_report(before: &Position, mv: Move, info: &MoveInfo, who: &str) -> (r: String)
    requires
        before.wf(),
        info.piece < 12,
    ensures
        r@ == report_text(before@, mv, *info, who@),
{
    let mut out: String = String::new();
    out.append("\n");
    out.append(who);
    out.append(" plays ");
    out.append(mv.to_text().as_str());
    out.append("   [");
    push_kind(&mut out, piece_type_of(info.piece), info.captured, info.mover_died);
    out.append("]\n  destroyed: ");
    let mut destroyed: Vec<String> = list_men(before, info.captured);
    if info.mover_died {
        let ghost taken = text::strings(destroyed@);
        let mut mover: String = piece_letter(before, mv.from());
        mover.append(" (mover)");
        let ghost word = mover@;
        destroyed.push(mover);
        assert(text::strings(destroyed@) =~= taken.push(word));
    }
    let destroyed: Vec<String> = sort_texts(destroyed);
    let n: usize = destroyed.len();
    let row: String = join_texts(&destroyed, 0, n);
    proof {
        let l = text::strings(destroyed@);
        assert(l.subrange(0, n as int) =~= l);
    }
    push_or_dash(&mut out, row.as_str());
    out.append("\n  emptied:   ");
    push_or_dash(&mut out, square_list(info.emptied).as_str());
    out.append("\n");
    assert(Seq::<char>::empty() + "\n"@ =~= "\n"@);
    out
}

/// The board, the ply, the side to move, and the result if there is one.
pub open spec fn state_text(g: Game) -> Seq<char> {
    let head = fen::picture(g.board) + "  ply "@ + text::decimal(g.ply as nat) + "   "@
        + types::color_name(g.side) + " to move\n  fen "@ + fen::game_text(g) + "\n"@;
    match rules::outcome(g) {
        None => head,
        Some(r) => head + "\n  *** GAME OVER — "@ + position::result_text(r) + " ***\n"@,
    }
}

/// Describes a position.
pub fn state_report(pos: &Position) -> (r: String)
    requires
        pos.wf(),
    ensures
        r@ == state_text(pos@),
{
    let mut out: String = pos.board_string();
    out.append("  ply ");
    push_decimal(&mut out, pos.ply as u128);
    out.append("   ");
    out.append(pos.side.name());
    out.append(" to move\n  fen ");
    out.append(pos.to_fen().as_str());
    out.append("\n");
    if let Some(r) = pos.result() {
        out.append("\n  *** GAME OVER — ");
        out.append(r.describe().as_str());
        out.append(" ***\n");
    }
    out
}

/// What a search came to.
pub open spec fn found_text(r: SearchResult) -> Seq<char> {
    "  eval "@ + search::score_text(r.score as int) + "  depth "@ + text::decimal(r.depth as nat)
        + "/"@ + text::decimal(r.seldepth as nat) + "  nodes "@ + text::decimal(r.nodes as nat)
        + "  nps "@ + text::decimal(search::speed(r.nodes as int, r.elapsed as int) as nat)
        + "  time "@ + text::decimal(r.elapsed as nat / 1_000_000) + "ms\n  pv "@
        + search::line_text(r.pv@, r.pv@.len() as int) + "\n"@
}

/// Describes what a search came to.
pub fn search_report(r: &SearchResult) -> (out: String)
    requires
        r.score > i32::MIN,
        r.depth >= 0,
        r.seldepth >= 0,
    ensures
        out@ == found_text(*r),
{
    let mut out: String = String::new();
    out.append("  eval ");
    out.append(r.score_string().as_str());
    out.append("  depth ");
    push_decimal(&mut out, r.depth as u128);
    out.append("/");
    push_decimal(&mut out, r.seldepth as u128);
    out.append("  nodes ");
    push_decimal(&mut out, r.nodes as u128);
    out.append("  nps ");
    push_decimal(&mut out, r.nps() as u128);
    out.append("  time ");
    push_decimal(&mut out, r.elapsed / 1_000_000);
    out.append("ms\n  pv ");
    out.append(r.pv_string().as_str());
    out.append("\n");
    assert(Seq::<char>::empty() + "  eval "@ =~= "  eval "@);
    out
}

/// The texts of a list of moves.
pub open spec fn move_texts(ms: Seq<Move>) -> Seq<Seq<char>> {
    Seq::new(ms.len(), |i: int| types::move_text(ms[i]))
}

/// Texts in rows of sixteen, from `i` on.
pub open spec fn rows(l: Seq<Seq<char>>, i: int) -> Seq<char>
    decreases l.len() - i,
{
    if i < 0 || i >= l.len() {
        Seq::empty()
    } else {
        let end = if i + 16 < l.len() {
            i + 16
        } else {
            l.len() as int
        };
        "    "@ + text::joined(l.subrange(i, end)) + "\n"@ + rows(l, end)
    }
}

/// The legal moves, and how many of them are searched.
pub open spec fn moves_text(g: Game) -> Seq<char> {
    let all = movegen::kept(movegen::generated(g, GenMode::All));
    "  "@ + text::decimal(all.len()) + " legal moves:\n"@ + rows(text::sorted(move_texts(all)), 0)
        + "  ("@ + text::decimal(plan::considered(g, GenMode::Search).len())
        + " of them are searched; the rest are pawn teleports the restricted generator prunes)\n"@
}

/// Lists the legal moves of a position.
pub fn moves_report(pos: &Position) -> (r: String)
    requires
        pos.wf(),
    ensures
        r@ == moves_text(pos@),
{
    let all: Vec<Move> = generate_vec(pos, GenMode::All);
    let mut names: Vec<String> = Vec::new();
    let mut i: usize = 0;
    while i < all.len()
        invariant
            i <= all@.len(),
            names@.len() == i,
            forall|k: int| 0 <= k < i ==> (#[trigger] names@[k])@ == types::move_text(all@[k]),
        decreases all.len() - i,
    {
        names.push(all[i].to_text());
        i += 1;
    }
    assert(text::strings(names@) =~= move_texts(all@));
    let names: Vec<String> = sort_texts(names);
    let ghost l = text::strings(names@);
    proof {
        text::law_sorted(move_texts(all@));
    }
    let mut out: String = String::new();
    out.append("  ");
    push_decimal(&mut out, all.len() as u128);
    out.append(" legal moves:\n");
    let ghost head = out@;
    let mut k: usize = 0;
    assert(head + rows(l, 0) =~= out@ + rows(l, 0));
    while k < names.len()
        invariant
            k <= names@.len(),
            names@.len() <= 512,
            l == text::strings(names@),
            head + rows(l, 0) == out@ + rows(l, k as int),
        decreases names.len() - k,
    {
        let n: usize = names.len();
        let end: usize = if k + 16 < n {
            k + 16
        } else {
            n
        };
        let ghost before = out@;
        out.append("    ");
        out.append(join_texts(&names, k, end).as_str());
        out.append("\n");
        proof {
            let row = "    "@ + text::joined(l.subrange(k as int, end as int)) + "\n"@;
            assert(before + (row + rows(l, end as int)) =~= out@ + rows(l, end as int));
        }
        k = end;
    }
    assert(out@ =~= head + rows(l, 0));
    out.append("  (");
    push_decimal(&mut out, generate_vec(pos, GenMode::Search).len() as u128);
    out.append(
        " of them are searched; the rest are pawn teleports the restricted generator prunes)\n",
    );
    assert(Seq::<char>::empty() + "  "@ =~= "  "@);
    out
}

// ---------------------------------------------------------------------------
// Commands
// ---------------------------------------------------------------------------

/// What a typed line asks for.
pub enum Command {
    Blank,
    Quit,
    Help,
    /// A new game; the colour is the one the engine plays.
    New(Option<Color>),
    /// No such colour.
    NoColor(String),
    Board,
    Fen,
    /// Load a position.
    SetFen(String),
    /// No position given.
    NoFen,
    Undo,
    Moves,
    /// Thinking time per move in milliseconds, if it can be read.
    Time(Option<u64>),
    /// A fixed depth, if it can be read.
    Depth(Option<i32>),
    Eval,
    /// Which evaluator is in use.
    NetName,
    /// Back to the hand evaluation.
    NetOff,
    /// Load a network.
    Net(String),
    /// Node counts to a depth, if it can be read.
    Perft(Option<u32>),
    /// The engine shall move now.
    Go,
    Play(Move),
    Unknown(String),
}

/// A command with its texts as characters.
pub enum Order {
    Blank,
    Quit,
    Help,
    New(Option<Color>),
    NoColor(Seq<char>),
    Board,
    Fen,
    SetFen(Seq<char>),
    NoFen,
    Undo,
    Moves,
    Time(Option<int>),
    Depth(Option<int>),
    Eval,
    NetName,
    NetOff,
    Net(Seq<char>),
    Perft(Option<int>),
    Go,
    Play(Move),
    Unknown(Seq<char>),
}

impl View for Command {
    type V = Order;

    open spec fn view(&self) -> Order {
        match *self {
            Command::Blank => Order::Blank,
            Command::Quit => Order::Quit,
            Command::Help => Order::Help,
            Command::New(c) => Order::New(c),
            Command::NoColor(t) => Order::NoColor(t@),
            Command::Board => Order::Board,
            Command::Fen => Order::Fen,
            Command::SetFen(t) => Order::SetFen(t@),
            Command::NoFen => Order::NoFen,
            Command::Undo => Order::Undo,
            Command::Moves => Order::Moves,
            Command::Time(n) => Order::Time(
                match n {
                    Some(n) => Some(n as int),
                    None => None,
                },
            ),
            Command::Depth(n) => Order::Depth(
                match n {
                    Some(n) => Some(n as int),
                    None => None,
                },
            ),
            Command::Eval => Order::Eval,
            Command::NetName => Order::NetName,
            Command::NetOff => Order::NetOff,
            Command::Net(t) => Order::Net(t@),
            Command::Perft(n) => Order::Perft(
                match n {
                    Some(n) => Some(n as int),
                    None => None,
                },
            ),
            Command::Go => Order::Go,
            Command::Play(m) => Order::Play(m),
            Command::Unknown(t) => Order::Unknown(t@),
        }
    }
}

/// A text in lower case.
pub open spec fn lowered(t: Seq<char>) -> Seq<char> {
    Seq::new(t.len(), |i: int| text::ascii_lower(t[i]))
}

/// What a colour argument asks for.
pub open spec fn new_game(rest: Seq<Seq<char>>) -> Order {
    if rest.len() == 0 {
        Order::New(None)
    } else {
        let c = lowered(rest[0]);
        if c.len() > 0 && c[0] == 'w' {
            Order::New(Some(Color::White))
        } else if c.len() > 0 && c[0] == 'b' {
            Order::New(Some(Color::Black))
        } else {
            Order::NoColor(c)
        }
    }
}

/// The number in the first argument.
pub open spec fn first_number(rest: Seq<Seq<char>>, max: int) -> Option<int> {
    if rest.len() == 0 {
        None
    } else {
        text::number_of(rest[0], max)
    }
}

/// The move that a word names.
pub open spec fn move_named(w: Seq<char>) -> Option<Move> {
    if w.len() == 4 && types::square_of_text(w.subrange(0, 2)) is Some && types::square_of_text(
        w.subrange(2, 4),
    ) is Some {
        Some(
            types::move_of(
                types::square_of_text(w.subrange(0, 2))->0,
                types::square_of_text(w.subrange(2, 4))->0,
            ),
        )
    } else {
        None
    }
}

/// What a line of words asks for.
pub open spec fn order(ws: Seq<Seq<char>>) -> Order {
    if ws.len() == 0 {
        Order::Blank
    } else {
        let (w, rest) = (ws[0], ws.skip(1));
        if w == "quit"@ || w == "exit"@ || w == "q"@ {
            Order::Quit
        } else if w == "help"@ || w == "?"@ {
            Order::Help
        } else if w == "new"@ {
            new_game(rest)
        } else if w == "board"@ {
            Order::Board
        } else if w == "fen"@ {
            Order::Fen
        } else if w == "setfen"@ {
            if rest.len() == 0 {
                Order::NoFen
            } else {
                Order::SetFen(text::joined(rest))
            }
        } else if w == "undo"@ {
            Order::Undo
        } else if w == "moves"@ {
            Order::Moves
        } else if w == "time"@ {
            Order::Time(first_number(rest, u64::MAX as int))
        } else if w == "depth"@ {
            Order::Depth(
                if rest.len() == 0 {
                    None
                } else {
                    text::i32_of(rest[0])
                },
            )
        } else if w == "eval"@ {
            Order::Eval
        } else if w == "net"@ {
            if rest.len() == 0 {
                Order::NetName
            } else if rest[0] == "off"@ {
                Order::NetOff
            } else {
                Order::Net(rest[0])
            }
        } else if w == "perft"@ {
            Order::Perft(first_number(rest, u32::MAX as int))
        } else if w == "go"@ {
            Order::Go
        } else if let Some(m) = move_named(w) {
            Order::Play(m)
        } else {
            Order::Unknown(w)
        }
    }
}

fn lower_text(t: &Vec<char>) -> (r: String)
    ensures
        r@ == lowered(t@),
{
    let mut out: String = String::new();
    let mut i: usize = 0;
    while i < t.len()
        invariant
            i <= t@.len(),
            out@ == lowered(t@.take(i as int)),
        decreases t.len() - i,
    {
        out.push(to_lower(t[i]));
        i += 1;
        assert(out@ =~= lowered(t@.take(i as int)));
    }
    assert(t@.take(t@.len() as int) =~= t@);
    out
}

/// The words behind the first, in a row.
fn join_rest(ws: &Vec<Vec<char>>) -> (r: String)
    requires
        ws@.len() > 0,
    ensures
        r@ == text::joined(text::texts(ws@).skip(1)),
{
    let mut v: Vec<String> = Vec::new();
    let mut i: usize = 1;
    while i < ws.len()
        invariant
            1 <= i <= ws@.len(),
            v@.len() == i - 1,
            forall|k: int| 0 <= k < i - 1 ==> (#[trigger] v@[k])@ == ws@[k + 1]@,
        decreases ws.len() - i,
    {
        v.push(text::string_of(&ws[i]));
        i += 1;
    }
    let n: usize = v.len();
    proof {
        assert(text::strings(v@).subrange(0, n as int) =~= text::texts(ws@).skip(1));
    }
    join_texts(&v, 0, n)
}

fn new_game_command(ws: &Vec<Vec<char>>) -> (c: Command)
    requires
        ws@.len() > 0,
    ensures
        c@ == new_game(text::texts(ws@).skip(1)),
{
    if ws.len() == 1 {
        return Command::New(None);
    }
    assert(text::texts(ws@).skip(1)[0] == ws@[1]@);
    let arg: String = lower_text(&ws[1]);
    let t: Vec<char> = chars_of(arg.as_str());
    if t.len() > 0 && t[0] == 'w' {
        Command::New(Some(Color::White))
    } else if t.len() > 0 && t[0] == 'b' {
        Command::New(Some(Color::Black))
    } else {
        Command::NoColor(arg)
    }
}

fn first_argument(ws: &Vec<Vec<char>>, max: u64) -> (r: Option<u64>)
    requires
        ws@.len() > 0,
    ensures
        (match r {
            Some(n) => Some(n as int),
            None => None,
        }) == first_number(text::texts(ws@).skip(1), max as int),
        r matches Some(n) ==> n <= max,
{
    if ws.len() == 1 {
        None
    } else {
        assert(text::texts(ws@).skip(1)[0] == ws@[1]@);
        parse_number(&ws[1], max)
    }
}

/// Reads a typed line.
pub fn read_command(line: &str) -> (c: Command)
    ensures
        c@ == order(text::words(text::unmarked(line@))),
{
    let ws: Vec<Vec<char>> = split_words(text::strip_marks(line).as_str());
    let ghost rest = text::texts(ws@).skip(1);
    if ws.len() == 0 {
        return Command::Blank;
    }
    let w: &Vec<char> = &ws[0];
    assert(w@ == text::texts(ws@)[0]);
    proof {
        if ws@.len() > 1 {
            assert(rest[0] == ws@[1]@);
        }
    }
    if text::same_text(w, "quit") || text::same_text(w, "exit") || text::same_text(w, "q") {
        Command::Quit
    } else if text::same_text(w, "help") || text::same_text(w, "?") {
        Command::Help
    } else if text::same_text(w, "new") {
        new_game_command(&ws)
    } else if text::same_text(w, "board") {
        Command::Board
    } else if text::same_text(w, "fen") {
        Command::Fen
    } else if text::same_text(w, "setfen") {
        if ws.len() == 1 {
            Command::NoFen
        } else {
            Command::SetFen(join_rest(&ws))
        }
    } else if text::same_text(w, "undo") {
        Command::Undo
    } else if text::same_text(w, "moves") {
        Command::Moves
    } else if text::same_text(w, "time") {
        Command::Time(first_argument(&ws, u64::MAX))
    } else if text::same_text(w, "depth") {
        Command::Depth(
            if ws.len() == 1 {
                None
            } else {
                parse_i32(&ws[1])
            },
        )
    } else if text::same_text(w, "eval") {
        Command::Eval
    } else if text::same_text(w, "net") {
        if ws.len() == 1 {
            Command::NetName
        } else if text::same_text(&ws[1], "off") {
            Command::NetOff
        } else {
            Command::Net(text::string_of(&ws[1]))
        }
    } else if text::same_text(w, "perft") {
        Command::Perft(
            match first_argument(&ws, u32::MAX as u64) {
                Some(n) => Some(n as u32),
                None => None,
            },
        )
    } else if text::same_text(w, "go") {
        Command::Go
    } else {
        let word: String = text::string_of(w);
        match Move::parse(word.as_str()) {
            Some(m) => Command::Play(m),
            None => Command::Unknown(word),
        }
    }
}

// ---------------------------------------------------------------------------
// Sessions
// ---------------------------------------------------------------------------

/// The game so far, and the engine that plays in it.
pub struct Session<E> {
    pub pos: Position,
    /// Every position from the start of the game, so `undo` is exact.
    pub history: Vec<Position>,
    pub played: Vec<Move>,
    pub engine_color: Option<Color>,
    pub searcher: Searcher<E>,
    pub limits: SearchLimits,
}

/// The positions and moves of a game so far.
#[verifier::ext_equal]
pub struct Trail {
    pub pos: Position,
    pub history: Seq<Position>,
    pub played: Seq<Move>,
}

/// `q` is what the move `m` makes of `p`.
pub open spec fn follows(p: Position, m: Move, q: Position) -> bool {
    &&& q.wf()
    &&& q.drift() == p.drift()
    &&& rules::playable(p@, m.src(), m.dst())
    &&& q@ == rules::apply(p@, m.src(), m.dst())
}

impl Trail {
    /// A game that starts at `pos`.
    pub open spec fn starts(self, pos: Position) -> bool {
        &&& self.pos == pos
        &&& self.history.len() == 0
        &&& self.played.len() == 0
    }

    /// The position after the first `i` moves.
    pub open spec fn at(self, i: int) -> Position {
        if i < self.history.len() {
            self.history[i]
        } else {
            self.pos
        }
    }

    /// Each position is what the move before it made of the one before.
    pub open spec fn wf(self) -> bool {
        &&& self.pos.wf()
        &&& self.history.len() == self.played.len()
        &&& forall|i: int| 0 <= i < self.history.len() ==> (#[trigger] self.history[i]).wf()
        &&& forall|i: int|
            0 <= i < self.history.len() ==> follows(
                self.history[i],
                #[trigger] self.played[i],
                self.at(i + 1),
            )
    }

    /// `next` is this game with the move `m` made.
    pub open spec fn extends_to(self, m: Move, next: Trail) -> bool {
        &&& follows(self.pos, m, next.pos)
        &&& next.history == self.history.push(self.pos)
        &&& next.played == self.played.push(m)
    }

    /// This game with the last move taken back.
    pub open spec fn undone(self) -> Trail {
        Trail {
            pos: self.history.last(),
            history: self.history.drop_last(),
            played: self.played.drop_last(),
        }
    }
}

/// Taking back a move restores the game as it was before the move.
pub proof fn law_undo_is_exact(t: Trail, m: Move, next: Trail)
    requires
        t.extends_to(m, next),
    ensures
        next.undone() == t,
{
    assert(next.undone() =~= t);
}

/// A game with a move made, or with one taken back, still hangs together.
pub proof fn law_trails_stay_sound(t: Trail, m: Move, next: Trail)
    requires
        t.wf(),
    ensures
        t.extends_to(m, next) ==> next.wf(),
        t.history.len() > 0 ==> t.undone().wf(),
{
    if t.extends_to(m, next) {
        assert forall|i: int| 0 <= i < next.history.len() implies (#[trigger] next.history[i]).wf() by {
            if i < t.history.len() {
                assert(t.history[i].wf());
            }
        }
        assert forall|i: int| 0 <= i < next.history.len() implies follows(
            next.history[i],
            #[trigger] next.played[i],
            next.at(i + 1),
        ) by {
            if i < t.history.len() {
                assert(follows(t.history[i], t.played[i], t.at(i + 1)));
            }
        }
    }
    if t.history.len() > 0 {
        let u = t.undone();
        assert(t.history[t.history.len() - 1].wf());
        assert forall|i: int| 0 <= i < u.history.len() implies (#[trigger] u.history[i]).wf() by {
            assert(t.history[i].wf());
        }
        assert forall|i: int| 0 <= i < u.history.len() implies follows(
            u.history[i],
            #[trigger] u.played[i],
            u.at(i + 1),
        ) by {
            assert(follows(t.history[i], t.played[i], t.at(i + 1)));
        }
    }
}

/// What came of a typed move.
pub enum Entered {
    /// The game is already over.
    Over,
    /// The move is not legal here.
    Illegal,
    /// The move has been made; the report on it.
    Made(String),
}

/// What came of asking the engine for a move.
pub enum Answer {
    /// The game is over.
    Over,
    /// The engine has moved; the report on its move, and what its search came to.
    Moved(String, SearchResult),
}

impl<E: Judge> Session<E> {
    pub open spec fn trail(self) -> Trail {
        Trail { pos: self.pos, history: self.history@, played: self.played@ }
    }

    pub open spec fn wf(self) -> bool {
        &&& self.trail().wf()
        &&& self.searcher.wf()
    }

    /// Everything but the game is as in `o`.
    pub open spec fn same_engine(self, o: Self) -> bool {
        &&& self.engine_color == o.engine_color
        &&& self.searcher == o.searcher
        &&& self.limits == o.limits
    }

    /// A session at the start of a game, in which the engine plays neither side.
    pub fn new(evaluator: E) -> (s: Session<E>)
        ensures
            s.wf(),
            s.trail().starts(s.pos),
            s.pos@ == fen::start_game(),
            s.pos.keyed(),
            s.engine_color is None,
            s.searcher.choices().evaluator == evaluator,
            s.searcher.choices().tt_megabytes == 64,
            !s.searcher.choices().use_null_move,
            s.searcher.choices().use_lmr,
            !s.searcher.choices().verbose,
            !s.searcher.alone(),
            plan::fresh(s.searcher.mind(), search::table_size(64)),
            s.limits == (SearchLimits { depth: None, movetime: Some(2000), nodes: None }),
    {
        Session {
            pos: Position::startpos(),
            history: Vec::new(),
            played: Vec::new(),
            engine_color: None,
            searcher: Searcher::with_evaluator(evaluator),
            limits: SearchLimits::movetime_ms(2000),
        }
    }

    /// Starts over, from the start of a game.
    pub fn reset(&mut self, engine_color: Option<Color>)
        requires
            old(self).wf(),
        ensures
            final(self).wf(),
            final(self).trail().starts(final(self).pos),
            final(self).pos@ == fen::start_game(),
            final(self).pos.keyed(),
            final(self).engine_color == engine_color,
            final(self).limits == old(self).limits,
            final(self).searcher.choices() == old(self).searcher.choices(),
            final(self).searcher.flag() == old(self).searcher.flag(),
            final(self).searcher.alone() == old(self).searcher.alone(),
            plan::fresh(
                final(self).searcher.mind(),
                old(self).searcher.mind().entries.len() as int,
            ),
    {
        self.load(Position::startpos());
        self.engine_color = engine_color;
    }

    /// Starts over from a position.
    pub fn load(&mut self, pos: Position)
        requires
            old(self).wf(),
            pos.wf(),
        ensures
            final(self).wf(),
            final(self).trail().starts(pos),
            final(self).engine_color == old(self).engine_color,
            final(self).limits == old(self).limits,
            final(self).searcher.choices() == old(self).searcher.choices(),
            final(self).searcher.flag() == old(self).searcher.flag(),
            final(self).searcher.alone() == old(self).searcher.alone(),
            plan::fresh(
                final(self).searcher.mind(),
                old(self).searcher.mind().entries.len() as int,
            ),
    {
        self.pos = pos;
        self.history = Vec::new();
        self.played = Vec::new();
        self.searcher.reset();
    }

    /// Makes a move and reports it, with the position that it leads to.
    pub fn apply(&mut self, mv: Move, who: &str) -> (report: String)
        requires
            old(self).wf(),
            rules::playable(old(self).pos@, mv.src(), mv.dst()),
            old(self).pos.ply < u16::MAX,
        ensures
            final(self).wf(),
            final(self).same_engine(*old(self)),
            old(self).trail().extends_to(mv, final(self).trail()),
            exists|info: MoveInfo|
                info.tells(old(self).pos@, mv.src(), mv.dst()) && report@ == #[trigger] report_text(
                    old(self).pos@,
                    mv,
                    info,
                    who@,
                ) + state_text(final(self).pos@),
    {
        let before: Position = self.pos;
        self.history.push(before);
        self.played.push(mv);
        let info = self.pos.make_move(mv);
        proof {
            law_trails_stay_sound(old(self).trail(), mv, self.trail());
        }
        let mut out: String = move_report(&before, mv, &info, who);
        out.append(state_report(&self.pos).as_str());
        out
    }

    /// Takes back the last ply, if there is one.
    pub fn undo(&mut self) -> (b: bool)
        requires
            old(self).wf(),
        ensures
            final(self).wf(),
            final(self).same_engine(*old(self)),
            b == (old(self).history@.len() > 0),
            b ==> final(self).trail() == old(self).trail().undone(),
            !b ==> final(self).trail() == old(self).trail(),
    {
        proof {
            law_trails_stay_sound(self.trail(), Move(0), self.trail());
        }
        match self.history.pop() {
            Some(p) => {
                self.pos = p;
                let _ = self.played.pop();
                assert(self.trail() =~= old(self).trail().undone());
                true
            },
            None => {
                assert(self.trail() =~= old(self).trail());
                false
            },
        }
    }

    /// Enters a typed move.
    pub fn enter(&mut self, mv: Move) -> (r: Entered)
        requires
            old(self).wf(),
        ensures
            final(self).wf(),
            final(self).same_engine(*old(self)),
            ({
                let g = old(self).pos@;
                let over = rules::outcome(g) is Some;
                let legal = movegen::kept(movegen::generated(g, GenMode::All)).contains(mv);
                &&& r is Over <==> over
                &&& r is Illegal <==> !over && !legal
                &&& r is Made <==> !over && legal
                &&& !(r is Made) ==> final(self).trail() == old(self).trail()
                &&& r matches Entered::Made(report) ==> {
                    &&& old(self).trail().extends_to(mv, final(self).trail())
                    &&& exists|info: MoveInfo|
                        info.tells(g, mv.src(), mv.dst()) && report@ == #[trigger] report_text(
                            g,
                            mv,
                            info,
                            types::color_name(g.side),
                        ) + state_text(final(self).pos@)
                }
            }),
    {
        if self.pos.result().is_some() {
            return Entered::Over;
        }
        let legal: Vec<Move> = generate_vec(&self.pos, GenMode::All);
        if !lists(&legal, mv) {
            return Entered::Illegal;
        }
        proof {
            lemma_listed_playable(self.pos@, GenMode::All, mv);
        }
        let who: &str = self.pos.side.name();
        Entered::Made(self.apply(mv, who))
    }

    /// The engine is to move.
    pub fn reply_due(&self) -> (b: bool)
        requires
            self.wf(),
        ensures
            b <==> rules::outcome(self.pos@) is None && self.engine_color == Some(self.pos@.side),
    {
        if self.pos.result().is_some() {
            return false;
        }
        match self.engine_color {
            Some(c) => c == self.pos.side,
            None => false,
        }
    }

    /// Lets the engine move.
    pub fn engine_move(&mut self) -> (r: Answer)
        requires
            old(self).wf(),
        ensures
            final(self).wf(),
            final(self).engine_color == old(self).engine_color,
            final(self).limits == old(self).limits,
            final(self).searcher.choices() == old(self).searcher.choices(),
            final(self).searcher.flag() == old(self).searcher.flag(),
            final(self).searcher.alone() == old(self).searcher.alone(),
            r is Over <==> rules::outcome(old(self).pos@) is Some,
            r is Over ==> final(self).trail() == old(self).trail(),
            r matches Answer::Moved(report, found) ==> {
                let (g, drift) = (old(self).pos@, old(self).pos.drift());
                &&& final(self).searcher.given(old(self).limits)
                &&& (final(self).searcher.mind(), found@) == plan::search(
                    final(self).searcher.setup(),
                    old(self).searcher.mind(),
                    g,
                    drift,
                    search::last_depth(old(self).limits),
                )
                &&& plan::sound(g, found@)
                &&& old(self).trail().extends_to(found.best, final(self).trail())
                &&& -40_000 <= found.score <= 40_000
                &&& found.depth >= 0
                &&& found.seldepth >= 0
                &&& exists|info: MoveInfo|
                    info.tells(g, found.best.src(), found.best.dst()) && report@
                        == #[trigger] report_text(
                        g,
                        found.best,
                        info,
                        "engine ("@ + types::color_name(g.side) + ")"@,
                    ) + state_text(final(self).pos@)
            },
    {
        if self.pos.result().is_some() {
            return Answer::Over;
        }
        proof {
            // Both kings stand, so the side to move has a move.
            laws::law_a_king_always_has_a_move(self.pos@);
        }
        let limits: SearchLimits = self.limits;
        let pos: Position = self.pos;
        let found = self.searcher.search(&pos, &limits);
        proof {
            lemma_listed_playable(pos@, GenMode::Search, found.best);
        }
        let mut who: String = String::new();
        who.append("engine (");
        who.append(pos.side.name());
        who.append(")");
        assert(Seq::<char>::empty() + "engine ("@ =~= "engine ("@);
        let report: String = self.apply(found.best, who.as_str());
        Answer::Moved(report, found)
    }
}

/// A listed move can be carried out.
proof fn lemma_listed_playable(g: Game, mode: GenMode, mv: Move)
    requires
        g.board.len() == 64,
        plan::considered(g, mode).contains(mv),
    ensures
        rules::playable(g, mv.src(), mv.dst()),
{
    plan::lemma_considered_playable(g, mode);
    let ms = plan::considered(g, mode);
    let k = choose|k: int| 0 <= k < ms.len() && ms[k] == mv;
    assert(plan::can_play(g, ms[k]));
    reveal(plan::can_play);
}

fn lists(ms: &Vec<Move>, mv: Move) -> (b: bool)
    ensures
        b == ms@.contains(mv),
{
    let mut i: usize = 0;
    while i < ms.len()
        invariant
            i <= ms@.len(),
            forall|k: int| 0 <= k < i ==> #[trigger] ms@[k] != mv,
        decreases ms.len() - i,
    {
        if ms[i] == mv {
            return true;
        }
        i += 1;
    }
    false
}

} // verus!
