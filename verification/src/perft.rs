//! Perft: counting the leaves of the game tree.
//!
//! ```text
//! perft(pos, 0) = 1
//! perft(pos, d) = 0                                           if pos is terminal
//! perft(pos, d) = sum over legal moves of perft(child, d-1)   otherwise
//! ```
//!
//! Terminal positions contribute nothing at `d > 0` because no move may be played
//! from them. Always uses `GenMode::All` — restricted teleport generation is a
//! search heuristic, not a rule.

use rayon::iter::{IntoParallelRefIterator, ParallelIterator};
use vstd::prelude::*;
use crate::laws;
use crate::movegen;
use crate::movegen::{GenMode, MoveList, generate};
use crate::position::Position;
use crate::rules;
use crate::rules::Game;
use crate::text;
use crate::types;
use crate::types::{Color, Move};

verus! {

/// The game after the move `m`.
pub open spec fn child(g: Game, m: Move) -> Game {
    rules::apply(g, m.src(), m.dst())
}

/// The full move list of a game.
pub open spec fn listed(g: Game) -> Seq<Move> {
    movegen::kept(movegen::generated(g, GenMode::All))
}

/// Number of leaves `d` plies down.
pub open spec fn perft_count(g: Game, d: nat) -> nat
    decreases d, 0int,
{
    if d == 0 {
        1
    } else if rules::outcome(g) is Some {
        0
    } else {
        branch_sum(g, listed(g), listed(g).len() as int, (d - 1) as nat)
    }
}

/// Leaves `d` plies below the games that the first `n` of the moves `ms` lead to.
pub open spec fn branch_sum(g: Game, ms: Seq<Move>, n: int, d: nat) -> nat
    decreases d, n,
{
    if n <= 0 {
        0
    } else {
        branch_sum(g, ms, n - 1, d) + perft_count(child(g, ms[n - 1]), d)
    }
}

proof fn lemma_bulk(g: Game, ms: Seq<Move>, n: int)
    requires
        0 <= n,
    ensures
        branch_sum(g, ms, n, 0) == n,
    decreases n,
{
    if n > 0 {
        lemma_bulk(g, ms, n - 1);
        assert(perft_count(child(g, ms[n - 1]), 0) == 1);
    }
}

proof fn lemma_branch_grows(g: Game, ms: Seq<Move>, i: int, n: int, d: nat)
    requires
        0 <= i <= n,
    ensures
        branch_sum(g, ms, i, d) <= branch_sum(g, ms, n, d),
        i < n ==> branch_sum(g, ms, i, d) + perft_count(child(g, ms[i]), d) <= branch_sum(
            g,
            ms,
            n,
            d,
        ),
    decreases n - i,
{
    if i < n {
        lemma_branch_grows(g, ms, i + 1, n, d);
    }
}

/// Every listed move can be carried out.
pub proof fn lemma_listed_playable(g: Game, i: int)
    requires
        g.board.len() == 64,
        0 <= i < listed(g).len(),
    ensures
        rules::legal(g, listed(g)[i].src(), listed(g)[i].dst()),
        rules::playable(g, listed(g)[i].src(), listed(g)[i].dst()),
{
    laws::law_generated_members(g, GenMode::All);
    let all = movegen::generated(g, GenMode::All);
    let m = listed(g)[i];
    assert(all[i] == m);
    assert(all.contains(m));
    rules::lemma_legal_playable(g, m.src(), m.dst());
}

pub fn perft(pos: &Position, depth: u32) -> (n: u64)
    requires
        pos.wf(),
        perft_count(pos@, depth as nat) <= u64::MAX,
    ensures
        n == perft_count(pos@, depth as nat),
    decreases depth,
{
    if depth == 0 {
        return 1;
    }
    if pos.result().is_some() {
        return 0;
    }
    let mut list = MoveList::new();
    generate(pos, GenMode::All, &mut list);
    let ghost ms = listed(pos@);
    if depth == 1 {
        // Bulk counting is only valid when every child is a leaf; children that
        // are terminal still count as reached positions at depth 1.
        proof {
            lemma_bulk(pos@, ms, ms.len() as int);
        }
        return list.len() as u64;
    }
    let mut total: u64 = 0;
    let mut i: usize = 0;
    while i < list.len
        invariant
            pos.wf(),
            pos.ply < 200,
            depth >= 2,
            list.wf(),
            list@ == ms,
            ms == listed(pos@),
            i <= list.len,
            perft_count(pos@, depth as nat) == branch_sum(
                pos@,
                ms,
                ms.len() as int,
                (depth - 1) as nat,
            ),
            perft_count(pos@, depth as nat) <= u64::MAX,
            total == branch_sum(pos@, ms, i as int, (depth - 1) as nat),
        decreases list.len - i,
    {
        let mv: Move = list.moves[i];
        assert(mv == ms[i as int]);
        proof {
            lemma_listed_playable(pos@, i as int);
            lemma_branch_grows(pos@, ms, i as int, ms.len() as int, (depth - 1) as nat);
        }
        let (next, _) = pos.after(mv);
        total = total + perft(&next, depth - 1);
        i += 1;
    }
    total
}

/// The node count, unless it exceeds 64 bits. Down to seven plies it never does.
pub fn checked_perft(pos: &Position, depth: u32) -> (r: Option<u64>)
    requires
        pos.wf(),
    ensures
        r == if perft_count(pos@, depth as nat) <= u64::MAX {
            Some(perft_count(pos@, depth as nat) as u64)
        } else {
            None
        },
    decreases depth,
{
    if depth <= 7 {
        proof {
            law_perft_fits(pos@, depth as nat);
        }
        return Some(perft(pos, depth));
    }
    if pos.result().is_some() {
        return Some(0);
    }
    let mut list = MoveList::new();
    generate(pos, GenMode::All, &mut list);
    let ghost ms = listed(pos@);
    let mut total: u64 = 0;
    let mut i: usize = 0;
    while i < list.len
        invariant
            pos.wf(),
            pos.ply < 200,
            depth >= 2,
            list.wf(),
            list@ == ms,
            ms == listed(pos@),
            i <= list.len,
            perft_count(pos@, depth as nat) == branch_sum(
                pos@,
                ms,
                ms.len() as int,
                (depth - 1) as nat,
            ),
            total == branch_sum(pos@, ms, i as int, (depth - 1) as nat),
        decreases list.len - i,
    {
        let mv: Move = list.moves[i];
        assert(mv == ms[i as int]);
        proof {
            lemma_listed_playable(pos@, i as int);
            lemma_branch_grows(pos@, ms, i as int, ms.len() as int, (depth - 1) as nat);
        }
        let (next, _) = pos.after(mv);
        let below: u64 = match checked_perft(&next, depth - 1) {
            Some(n) => n,
            None => {
                return None;
            },
        };
        total = match total.checked_add(below) {
            Some(n) => n,
            None => {
                return None;
            },
        };
        i += 1;
    }
    Some(total)
}

/// A move with the number of leaves below it.
pub open spec fn split_entry(g: Game, m: Move, depth: u32) -> (Move, u64) {
    (
        m,
        if depth <= 1 {
            1
        } else {
            perft_count(child(g, m), (depth - 1) as nat) as u64
        },
    )
}

/// The breakdown in the order of the move list.
pub open spec fn split_list(g: Game, depth: u32) -> Seq<(Move, u64)> {
    Seq::new(listed(g).len(), |i: int| split_entry(g, listed(g)[i], depth))
}

/// The entries are in the order of the moves' texts.
pub open spec fn by_text(s: Seq<(Move, u64)>) -> bool {
    forall|i: int, j: int|
        0 <= i < j < s.len() ==> !text::less(
            #[trigger] types::move_text(s[j].0),
            #[trigger] types::move_text(s[i].0),
        )
}

/// Where a move's text stands among the texts of all moves.
fn text_place(m: Move) -> (r: u32)
    ensures
        r == types::text_order(m),
{
    let f: u32 = m.from() as u32;
    let t: u32 = m.to() as u32;
    512 * (f % 8) + 64 * (f / 8) + 8 * (t % 8) + t / 8
}

/// Puts `x` in its place among the sorted entries.
fn insert_by_text(v: &mut Vec<(Move, u64)>, x: (Move, u64))
    requires
        by_text(old(v)@),
    ensures
        by_text(final(v)@),
        final(v)@.to_multiset() == old(v)@.to_multiset().insert(x),
{
    let mut k: usize = v.len();
    let key: u32 = text_place(x.0);
    while k > 0 && text_place(v[k - 1].0) > key
        invariant
            k <= v.len(),
            v@ == old(v)@,
            key == types::text_order(x.0),
            forall|j: int| k <= j < v@.len() ==> types::text_order(#[trigger] v@[j].0) > key,
        decreases k,
    {
        k -= 1;
    }
    v.insert(k, x);
    proof {
        let o = old(v)@;
        let n = v@;
        assert(n == o.insert(k as int, x));
        vstd::seq_lib::to_multiset_insert(o, k as int, x);
        assert forall|i: int, j: int| 0 <= i < j < n.len() implies !text::less(
            #[trigger] types::move_text(n[j].0),
            #[trigger] types::move_text(n[i].0),
        ) by {
            types::lemma_text_order(n[j].0, n[i].0);
            if i < k && j < k {
                types::lemma_text_order(o[j].0, o[i].0);
                assert(!text::less(types::move_text(o[j].0), types::move_text(o[i].0)));
            } else if i < k && j > k {
                types::lemma_text_order(o[j - 1].0, o[i].0);
                assert(!text::less(types::move_text(o[j - 1].0), types::move_text(o[i].0)));
            } else if i > k {
                types::lemma_text_order(o[j - 1].0, o[i - 1].0);
                assert(!text::less(types::move_text(o[j - 1].0), types::move_text(o[i - 1].0)));
            } else if j == k {
                if k > 0 {
                    types::lemma_text_order(o[k - 1].0, o[i].0);
                    if i < k - 1 {
                        assert(!text::less(types::move_text(o[k - 1].0), types::move_text(o[i].0)));
                    }
                }
            } else {
                assert(n[j] == o[j - 1]);
            }
        }
    }
}

/// Per-root-move breakdown, sorted by the moves' texts. The root itself may be
/// terminal.
pub fn perft_divide(pos: &Position, depth: u32) -> (out: Vec<(Move, u64)>)
    requires
        pos.wf(),
        pos.ply < u16::MAX,
        depth >= 2 ==> branch_sum(
            pos@,
            listed(pos@),
            listed(pos@).len() as int,
            (depth - 1) as nat,
        ) <= u64::MAX,
    ensures
        by_text(out@),
        out@.to_multiset() == split_list(pos@, depth).to_multiset(),
{
    let mut list = MoveList::new();
    generate(pos, GenMode::All, &mut list);
    let ghost g = pos@;
    let ghost ms = listed(g);
    let ghost all = split_list(g, depth);
    let mut out: Vec<(Move, u64)> = Vec::new();
    let mut i: usize = 0;
    proof {
        assert(all.take(0) =~= Seq::<(Move, u64)>::empty());
        assert(out@ =~= all.take(0));
    }
    while i < list.len
        invariant
            pos.wf(),
            pos.ply < u16::MAX,
            g == pos@,
            list.wf(),
            list@ == ms,
            ms == listed(g),
            all == split_list(g, depth),
            i <= list.len,
            depth >= 2 ==> branch_sum(g, ms, ms.len() as int, (depth - 1) as nat) <= u64::MAX,
            by_text(out@),
            out@.to_multiset() == all.take(i as int).to_multiset(),
        decreases list.len - i,
    {
        let mv: Move = list.moves[i];
        assert(mv == ms[i as int]);
        proof {
            lemma_listed_playable(g, i as int);
            if depth >= 2 {
                lemma_branch_grows(g, ms, i as int, ms.len() as int, (depth - 1) as nat);
            }
        }
        let n: u64 = if depth <= 1 {
            1
        } else {
            let (next, _) = pos.after(mv);
            perft(&next, depth - 1)
        };
        insert_by_text(&mut out, (mv, n));
        proof {
            assert(all.take(i + 1) =~= all.take(i as int).push(all[i as int]));
            all.take(i as int).to_multiset_ensures();
            assert(all[i as int] == (mv, n));
        }
        i += 1;
    }
    assert(all.take(all.len() as int) =~= all);
    out
}

/// `rayon`'s `par_iter`, `map` and `collect`: applies a function to each element of a
/// vector on some thread, and gathers the results in the order of the elements. Here
/// the function is `perft`.
#[verifier::external_body]
fn perft_each(children: &Vec<Position>, depth: u32) -> (r: Vec<u64>)
    requires
        forall|i: int| 0 <= i < children@.len() ==> (#[trigger] children@[i]).wf(),
        forall|i: int|
            0 <= i < children@.len() ==> perft_count((#[trigger] children@[i])@, depth as nat)
                <= u64::MAX,
    ensures
        r@.len() == children@.len(),
        forall|i: int|
            0 <= i < children@.len() ==> #[trigger] r@[i] == perft_count(
                children@[i]@,
                depth as nat,
            ),
{
    children.par_iter().map(|c| perft(c, depth)).collect()
}

/// Parallel perft for the deeper checks.
pub fn perft_parallel(pos: &Position, depth: u32) -> (n: u64)
    requires
        pos.wf(),
        perft_count(pos@, depth as nat) <= u64::MAX,
    ensures
        n == perft_count(pos@, depth as nat),
{
    if depth <= 2 {
        return perft(pos, depth);
    }
    if pos.result().is_some() {
        return 0;
    }
    let mut list = MoveList::new();
    generate(pos, GenMode::All, &mut list);
    let ghost g = pos@;
    let ghost ms = listed(g);
    let ghost d = (depth - 1) as nat;
    let mut children: Vec<Position> = Vec::new();
    let mut i: usize = 0;
    while i < list.len
        invariant
            pos.wf(),
            pos.ply < 200,
            g == pos@,
            list.wf(),
            list@ == ms,
            ms == listed(g),
            i <= list.len,
            branch_sum(g, ms, ms.len() as int, d) <= u64::MAX,
            children@.len() == i,
            forall|j: int|
                0 <= j < i ==> (#[trigger] children@[j]).wf() && children@[j]@ == child(g, ms[j])
                    && perft_count(children@[j]@, d) <= u64::MAX,
        decreases list.len - i,
    {
        let mv: Move = list.moves[i];
        assert(mv == ms[i as int]);
        proof {
            lemma_listed_playable(g, i as int);
            lemma_branch_grows(g, ms, i as int, ms.len() as int, d);
        }
        let (next, _) = pos.after(mv);
        children.push(next);
        i += 1;
    }
    let counts: Vec<u64> = perft_each(&children, depth - 1);
    let mut total: u64 = 0;
    let mut k: usize = 0;
    while k < counts.len()
        invariant
            k <= counts@.len(),
            counts@.len() == ms.len(),
            children@.len() == ms.len(),
            branch_sum(g, ms, ms.len() as int, d) <= u64::MAX,
            forall|j: int| 0 <= j < ms.len() ==> (#[trigger] children@[j])@ == child(g, ms[j]),
            forall|j: int|
                0 <= j < ms.len() ==> #[trigger] counts@[j] == perft_count(children@[j]@, d),
            total == branch_sum(g, ms, k as int, d),
        decreases counts.len() - k,
    {
        proof {
            lemma_branch_grows(g, ms, k as int, ms.len() as int, d);
            assert(children@[k as int]@ == child(g, ms[k as int]));
        }
        total = total + counts[k];
        k += 1;
    }
    total
}

// ---------------------------------------------------------------------------
// Laws
// ---------------------------------------------------------------------------

/// 512 to the power of `d`.
spec fn ceiling(d: nat) -> int
    decreases d,
{
    if d == 0 {
        1
    } else {
        512 * ceiling((d - 1) as nat)
    }
}

proof fn lemma_ceiling(g: Game, d: nat)
    ensures
        perft_count(g, d) <= ceiling(d),
        0 <= ceiling(d),
    decreases d, 0int,
{
    if d > 0 {
        lemma_branch_ceiling(g, listed(g), listed(g).len() as int, (d - 1) as nat);
        let n = listed(g).len() as int;
        let c = ceiling((d - 1) as nat);
        assert(n * c <= 512 * c) by (nonlinear_arith)
            requires
                n <= 512,
                0 <= c,
        ;
    }
}

proof fn lemma_branch_ceiling(g: Game, ms: Seq<Move>, n: int, d: nat)
    requires
        0 <= n,
    ensures
        branch_sum(g, ms, n, d) <= n * ceiling(d),
        0 <= ceiling(d),
    decreases d, n + 1,
{
    if n > 0 {
        lemma_branch_ceiling(g, ms, n - 1, d);
        lemma_ceiling(child(g, ms[n - 1]), d);
        let c = ceiling(d);
        assert(n * c == (n - 1) * c + c) by (nonlinear_arith);
    } else {
        lemma_ceiling(g, d);
        assert(0 * ceiling(d) == 0);
    }
}

/// Up to depth 7 a perft count fits into 64 bits, whatever the position.
pub proof fn law_perft_fits(g: Game, d: nat)
    requires
        d <= 7,
    ensures
        perft_count(g, d) <= u64::MAX,
        branch_sum(g, listed(g), listed(g).len() as int, (d - 1) as nat) <= u64::MAX || d == 0,
{
    reveal_with_fuel(ceiling, 8);
    lemma_ceiling(g, d);
    if d > 0 {
        let n = listed(g).len() as int;
        lemma_branch_ceiling(g, listed(g), n, (d - 1) as nat);
        let c = ceiling((d - 1) as nat);
        assert(n * c <= 512 * c) by (nonlinear_arith)
            requires
                n <= 512,
                0 <= c,
        ;
    }
}

/// Sum of the counts of a breakdown.
pub open spec fn total(s: Seq<(Move, u64)>) -> int
    decreases s.len(),
{
    if s.len() == 0 {
        0
    } else {
        total(s.drop_last()) + s.last().1
    }
}

proof fn lemma_total_remove(s: Seq<(Move, u64)>, i: int)
    requires
        0 <= i < s.len(),
    ensures
        total(s) == total(s.remove(i)) + s[i].1,
    decreases s.len(),
{
    if i == s.len() - 1 {
        assert(s.remove(i) =~= s.drop_last());
    } else {
        lemma_total_remove(s.drop_last(), i);
        assert(s.remove(i).drop_last() =~= s.drop_last().remove(i));
    }
}

proof fn lemma_total_permuted(a: Seq<(Move, u64)>, b: Seq<(Move, u64)>)
    requires
        a.to_multiset() == b.to_multiset(),
    ensures
        total(a) == total(b),
    decreases a.len(),
{
    a.to_multiset_ensures();
    b.to_multiset_ensures();
    assert(a.len() == b.len());
    if a.len() > 0 {
        let x = a.last();
        assert(a.contains(x));
        assert(b.to_multiset().count(x) > 0);
        assert(b.contains(x));
        let i = choose|i: int| 0 <= i < b.len() && b[i] == x;
        lemma_total_remove(b, i);
        assert(a.drop_last() =~= a.remove(a.len() - 1));
        assert(a.remove(a.len() - 1).to_multiset() =~= a.to_multiset().remove(x));
        assert(b.remove(i).to_multiset() =~= b.to_multiset().remove(x));
        lemma_total_permuted(a.drop_last(), b.remove(i));
    }
}

proof fn lemma_split_total(g: Game, depth: u32, n: int)
    requires
        depth >= 1,
        0 <= n <= listed(g).len(),
        branch_sum(g, listed(g), n, (depth - 1) as nat) <= u64::MAX,
    ensures
        total(split_list(g, depth).take(n)) == branch_sum(
            g,
            listed(g),
            n,
            (depth - 1) as nat,
        ),
    decreases n,
{
    let s = split_list(g, depth);
    if n > 0 {
        lemma_split_total(g, depth, n - 1);
        assert(s.take(n).drop_last() =~= s.take(n - 1));
        if depth == 1 {
            assert(perft_count(child(g, listed(g)[n - 1]), 0) == 1);
        }
    }
}

/// The breakdown of a game that goes on sums to its perft count.
pub proof fn law_divide_sums_to_perft(g: Game, depth: u32, out: Seq<(Move, u64)>)
    requires
        depth >= 1,
        rules::outcome(g) is None,
        perft_count(g, depth as nat) <= u64::MAX,
        out.to_multiset() == split_list(g, depth).to_multiset(),
    ensures
        total(out) == perft_count(g, depth as nat),
{
    let n = listed(g).len() as int;
    lemma_split_total(g, depth, n);
    assert(split_list(g, depth).take(n) =~= split_list(g, depth));
    lemma_total_permuted(out, split_list(g, depth));
}

/// At depth one perft counts the moves.
pub proof fn law_depth_one_is_the_move_count(g: Game)
    requires
        rules::outcome(g) is None,
    ensures
        perft_count(g, 1) == listed(g).len(),
{
    lemma_bulk(g, listed(g), listed(g).len() as int);
}

/// Number of lines of `d` legal moves, with no bound on the number of moves.
pub open spec fn line_count(g: Game, d: nat) -> nat
    decreases d, 0int,
{
    let ms = movegen::generated(g, GenMode::All);
    if d == 0 {
        1
    } else if rules::outcome(g) is Some {
        0
    } else {
        line_sum(g, ms, ms.len() as int, (d - 1) as nat)
    }
}

/// Lines of `d` moves below the games that the first `n` of the moves `ms` lead to.
pub open spec fn line_sum(g: Game, ms: Seq<Move>, n: int, d: nat) -> nat
    decreases d, n,
{
    if n <= 0 {
        0
    } else {
        line_sum(g, ms, n - 1, d) + line_count(child(g, ms[n - 1]), d)
    }
}

/// With no more pieces than a game starts with, perft counts every line of legal moves.
pub proof fn law_perft_counts_every_line(g: Game, d: nat)
    requires
        g.board.len() == 64,
        laws::standard(g, Color::White),
        laws::standard(g, Color::Black),
    ensures
        perft_count(g, d) == line_count(g, d),
    decreases d, 0int,
{
    if d > 0 && rules::outcome(g) is None {
        assert(laws::standard(g, g.side));
        laws::law_no_move_is_dropped(g, GenMode::All);
        lemma_line_sum(g, listed(g).len() as int, (d - 1) as nat);
    }
}

proof fn lemma_line_sum(g: Game, n: int, d: nat)
    requires
        g.board.len() == 64,
        laws::standard(g, Color::White),
        laws::standard(g, Color::Black),
        0 <= n <= listed(g).len(),
    ensures
        branch_sum(g, listed(g), n, d) == line_sum(g, listed(g), n, d),
    decreases d, n + 1,
{
    if n > 0 {
        lemma_line_sum(g, n - 1, d);
        let m = listed(g)[n - 1];
        lemma_listed_playable(g, n - 1);
        laws::law_moves_keep_material_standard(g, m.src(), m.dst(), Color::White);
        laws::law_moves_keep_material_standard(g, m.src(), m.dst(), Color::Black);
        law_perft_counts_every_line(child(g, m), d);
    }
}

} // verus!
