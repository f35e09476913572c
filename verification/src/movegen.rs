//! Move generation.
//!
//! Everything generated here is legal. There is no check, no pin detection and no
//! king-safety filtering, and a side with a king always has at least one move — an
//! empty move list is a bug, not a stalemate.

use vstd::prelude::*;
use crate::bits;
use crate::bits::Bitboard;
use crate::geom;
use crate::position::Position;
use crate::rules;
use crate::rules::Game;
use crate::tables;
use crate::tables::{
    between_mask, blast_mask, knight_dest, knight_path_mask, ray_len, ray_square, ring_mask,
    slider_attacks,
};
use crate::types;
use crate::types::{Color, Move, PieceType, bb, in_board, piece_type_of};

verus! {

broadcast use crate::bits::group_bits;

/// Upper bound on the move count. A full 16-piece side has at most
/// 8 pawns x 47 empty squares + 105 piece moves = 481. No promotion exists, so a side
/// can never hold more than 8 pawns.
pub const MAX_MOVES: usize = 512;

#[derive(Clone, Copy, PartialEq, Eq, Debug, Structural)]
pub enum GenMode {
    /// Every legal move, including all `pawns x empty_squares` teleports.
    /// Correct but unsearchable; this is what perft uses.
    All,
    /// Piece moves plus the restricted teleport set (see `teleport_targets`).
    Search,
    /// Captures only — quiescence. Pawns never capture, so they contribute none.
    Captures,
}

// ---------------------------------------------------------------------------
// Move lists
// ---------------------------------------------------------------------------

pub struct MoveList {
    pub moves: [Move; 512],
    pub scores: [i32; 512],
    pub len: usize,
}

impl View for MoveList {
    type V = Seq<Move>;

    open spec fn view(&self) -> Seq<Move> {
        self.moves@.take(self.len as int)
    }
}

/// What a list keeps of a row of moves: the first 512.
pub open spec fn kept(s: Seq<Move>) -> Seq<Move> {
    if s.len() <= 512 {
        s
    } else {
        s.take(512)
    }
}

impl Clone for MoveList {
    fn clone(&self) -> (r: MoveList)
        ensures
            r == *self,
    {
        MoveList { moves: self.moves, scores: self.scores, len: self.len }
    }
}

impl Default for MoveList {
    fn default() -> (r: MoveList)
        ensures
            r.wf(),
            r@ == Seq::<Move>::empty(),
    {
        MoveList::new()
    }
}

impl MoveList {
    pub open spec fn wf(self) -> bool {
        self.len <= 512
    }

    pub fn new() -> (r: MoveList)
        ensures
            r.wf(),
            r@ == Seq::<Move>::empty(),
            forall|i: int| 0 <= i < 512 ==> #[trigger] r.scores@[i] == 0,
    {
        let r = MoveList { moves: [Move(0);512], scores: [0;512], len: 0 };
        assert(r@ =~= Seq::<Move>::empty());
        r
    }

    /// Appends a move; a full list drops it.
    pub fn push(&mut self, m: Move)
        requires
            old(self).wf(),
        ensures
            final(self).wf(),
            final(self)@ == if old(self).len < 512 {
                old(self)@.push(m)
            } else {
                old(self)@
            },
            final(self).scores == old(self).scores,
    {
        if self.len < MAX_MOVES {
            let n: usize = self.len;
            self.moves[n] = m;
            self.len = n + 1;
            assert(self@ =~= old(self)@.push(m));
        }
    }

    pub fn clear(&mut self)
        ensures
            final(self).wf(),
            final(self)@ == Seq::<Move>::empty(),
            final(self).scores == old(self).scores,
    {
        self.len = 0;
        assert(self@ =~= Seq::<Move>::empty());
    }

    pub fn len(&self) -> (n: usize)
        requires
            self.wf(),
        ensures
            n == self@.len(),
            n <= 512,
    {
        self.len
    }

    pub fn is_empty(&self) -> (b: bool)
        requires
            self.wf(),
        ensures
            b == (self@.len() == 0),
    {
        self.len == 0
    }

    pub fn as_slice(&self) -> (s: &[Move])
        requires
            self.wf(),
        ensures
            s@ == self@,
    {
        vstd::slice::slice_subrange(vstd::array::array_as_slice(&self.moves), 0, self.len)
    }

    pub fn contains(&self, m: Move) -> (b: bool)
        requires
            self.wf(),
        ensures
            b == self@.contains(m),
    {
        let mut i: usize = 0;
        while i < self.len
            invariant
                self.wf(),
                i <= self.len,
                forall|j: int| 0 <= j < i ==> #[trigger] self.moves@[j] != m,
            decreases self.len - i,
        {
            if self.moves[i] == m {
                assert(self@[i as int] == m);
                return true;
            }
            i += 1;
        }
        false
    }

    pub fn to_vec(&self) -> (v: Vec<Move>)
        requires
            self.wf(),
        ensures
            v@ == self@,
    {
        let mut v: Vec<Move> = Vec::new();
        let mut i: usize = 0;
        while i < self.len
            invariant
                self.wf(),
                i <= self.len,
                v@ == self.moves@.take(i as int),
            decreases self.len - i,
        {
            v.push(self.moves[i]);
            i += 1;
            assert(v@ =~= self.moves@.take(i as int));
        }
        v
    }
}

// ---------------------------------------------------------------------------
// Which moves, and in which order
// ---------------------------------------------------------------------------

/// The move from `from` to `to` destroys something.
pub open spec fn captures(g: Game, from: int, to: int) -> bool {
    exists|s: int| #[trigger] rules::hits(g, from, to, s)
}

/// A rook or bishop of colour `c` on `x` can land on `t`.
pub open spec fn slider_reaches(g: Game, c: Color, x: int, t: int) -> bool {
    &&& rules::held_by(g, c, x)
    &&& geom::valid(t)
    &&& geom::slides(rules::kind_on(g, x), x, t)
    &&& rules::clear_line(g, x, t)
}

/// `s` is next to the king of colour `c`.
pub open spec fn near_king(g: Game, c: Color, s: int) -> bool {
    rules::king_square(g, c) matches Some(k) && geom::adjacent(k, s)
}

/// A pawn on `s` would block an enemy slider that can land on the king of colour `c`.
pub open spec fn interposes(g: Game, c: Color, s: int) -> bool {
    match rules::king_square(g, c) {
        Some(k) => exists|x: int| #[trigger]
            slider_reaches(g, c.other(), x, k) && geom::between(x, k, s),
        None => false,
    }
}

/// An enemy of colour `c` that is not a pawn stands on `y`.
pub open spec fn worthwhile(g: Game, c: Color, y: int) -> bool {
    rules::held_by(g, c, y) && rules::kind_on(g, y) != PieceType::Pawn
}

/// A slider of colour `c` could detonate on `s` next to an enemy worth the blast.
pub open spec fn primes(g: Game, c: Color, s: int) -> bool {
    &&& exists|x: int| #[trigger] slider_reaches(g, c, x, s)
    &&& exists|y: int| #[trigger] worthwhile(g, c.other(), y) && geom::adjacent(s, y)
}

/// An empty square that matters to a pawn of colour `c`.
pub open spec fn useful(g: Game, c: Color, s: int) -> bool {
    &&& geom::valid(s)
    &&& !rules::occupied(g, s)
    &&& near_king(g, c, s) || near_king(g, c.other(), s) || interposes(g, c, s) || primes(g, c, s)
}

/// `s` is in the three-by-three region of the king of colour `c`.
pub open spec fn in_king_blast(g: Game, c: Color, s: int) -> bool {
    rules::king_square(g, c) matches Some(k) && geom::blast(k, s)
}

/// An empty square that matters to nobody, away from both kings.
pub open spec fn quiet(g: Game, c: Color, s: int) -> bool {
    &&& geom::valid(s)
    &&& !rules::occupied(g, s)
    &&& !useful(g, c, s)
    &&& !in_king_blast(g, c, s)
    &&& !in_king_blast(g, c.other(), s)
}

/// `s` is among up to `n` squares spread evenly over those that satisfy `p`.
pub open spec fn sampled(p: spec_fn(int) -> bool, n: int, s: int) -> bool {
    let total = bits::count_squares(p);
    &&& geom::valid(s)
    &&& p(s)
    &&& n > 0
    &&& total <= n || {
        let step = total / n;
        let i = bits::count_below(p, s as nat);
        i % step == 0 && i / step < n
    }
}

/// The squares to which the search lets a pawn of colour `c` teleport.
pub open spec fn teleport_target(g: Game, c: Color, s: int) -> bool {
    useful(g, c, s) || sampled(|t: int| quiet(g, c, t), 4, s)
}

/// The move from `from` to `to` belongs to the list for `mode`.
pub open spec fn wanted(g: Game, mode: GenMode, from: int, to: int) -> bool {
    &&& rules::legal(g, from, to)
    &&& match mode {
        GenMode::All => true,
        GenMode::Captures => captures(g, from, to),
        GenMode::Search => rules::kind_on(g, from) == PieceType::Pawn ==> teleport_target(
            g,
            g.side,
            to,
        ),
    }
}

/// Destinations of a piece in the order in which they are tried; 64 stands for none.
/// A queen looks along one ray after the other, a knight goes by the kind of its leap,
/// and the others take the squares as they come.
pub open spec fn candidates(pt: PieceType, from: int) -> Seq<int> {
    match pt {
        PieceType::Knight => Seq::new(8, |k: int| tables::knight_landing(from, k)),
        PieceType::Queen => Seq::new(
            56,
            |i: int|
                if i % 7 < geom::ray_len(i / 7, from) {
                    geom::ray_square(i / 7, from, i % 7 + 1)
                } else {
                    64
                },
        ),
        _ => Seq::new(64, |i: int| i),
    }
}

/// The wanted moves from `from` to the first `n` candidates.
pub open spec fn moves_among(g: Game, mode: GenMode, from: int, c: Seq<int>, n: int) -> Seq<Move>
    decreases n,
{
    if n <= 0 {
        Seq::empty()
    } else {
        let before = moves_among(g, mode, from, c, n - 1);
        if wanted(g, mode, from, c[n - 1]) {
            before.push(types::move_of(from, c[n - 1]))
        } else {
            before
        }
    }
}

/// The wanted moves of the piece of type `pt` on `from`.
pub open spec fn moves_from(g: Game, mode: GenMode, pt: PieceType, from: int) -> Seq<Move> {
    moves_among(g, mode, from, candidates(pt, from), candidates(pt, from).len() as int)
}

/// The wanted moves of all pieces of type `pt` on squares below `n`.
pub open spec fn moves_of(g: Game, mode: GenMode, pt: PieceType, n: int) -> Seq<Move>
    decreases n,
{
    if n <= 0 {
        Seq::empty()
    } else {
        let before = moves_of(g, mode, pt, n - 1);
        if rules::stands(g, (g.side, pt), n - 1) {
            before + moves_from(g, mode, pt, n - 1)
        } else {
            before
        }
    }
}

/// Every wanted move, in order.
pub open spec fn generated(g: Game, mode: GenMode) -> Seq<Move> {
    moves_of(g, mode, PieceType::King, 64) + moves_of(g, mode, PieceType::Knight, 64) + moves_of(
        g,
        mode,
        PieceType::Rook,
        64,
    ) + moves_of(g, mode, PieceType::Bishop, 64) + moves_of(g, mode, PieceType::Queen, 64)
        + moves_of(g, mode, PieceType::Pawn, 64)
}

// ---------------------------------------------------------------------------
// Restricted teleport generation
// ---------------------------------------------------------------------------

proof fn lemma_slider_reaches(pos: Position, pt: PieceType, x: int, m: Bitboard)
    requires
        pos.wf(),
        pt == PieceType::Rook || pt == PieceType::Bishop,
        geom::valid(x),
        forall|t: int| #[trigger] bits::bit(m, t) <==> tables::reach(pt, x, pos.occ, t),
    ensures
        forall|c: Color, t: int|
            rules::stands(pos@, (c, pt), x) ==> (#[trigger] slider_reaches(pos@, c, x, t)
                <==> bits::bit(m, t)),
{
    assert forall|c: Color, t: int| rules::stands(pos@, (c, pt), x) implies (
    #[trigger] slider_reaches(pos@, c, x, t) <==> bits::bit(m, t)) by {
        assert(tables::reach(pt, x, pos.occ, t) <==> bits::bit(m, t));
        assert forall|y: int| bits::bit(pos.occ, y) == rules::occupied(pos@, y) by {}
        if tables::reach(pt, x, pos.occ, t) {
            assert(rules::clear_line(pos@, x, t)) by {
                assert forall|y: int| #[trigger] rules::occupied(pos@, y) implies !geom::between(
                    x,
                    t,
                    y,
                ) by {
                    assert(bits::bit(pos.occ, y));
                }
            }
        }
        if slider_reaches(pos@, c, x, t) {
            assert forall|y: int| #[trigger] bits::bit(pos.occ, y) implies !geom::between(x, t, y)
                by {
                assert(rules::occupied(pos@, y));
            }
        }
    }
}

/// The squares that sliders of type `pt` and colour `c` can land on.
fn reach_of(pos: &Position, c: Color, pt: PieceType) -> (m: Bitboard)
    requires
        pos.wf(),
        pt == PieceType::Rook || pt == PieceType::Bishop,
    ensures
        forall|t: int| #[trigger]
            bits::bit(m, t) <==> exists|x: int|
                rules::stands(pos@, (c, pt), x) && #[trigger] slider_reaches(pos@, c, x, t),
{
    let all: u64 = pos.bb_of(c, pt);
    let mut m: u64 = 0;
    let mut it = types::bits(all);
    loop
        invariant
            pos.wf(),
            pt == PieceType::Rook || pt == PieceType::Bishop,
            forall|x: int|
                #![trigger bits::bit(all, x)]
                #![trigger rules::stands(pos@, (c, pt), x)]
                bits::bit(all, x) <==> rules::stands(pos@, (c, pt), x),
            forall|x: int| #[trigger] bits::bit(it.0, x) ==> bits::bit(all, x),
            forall|t: int| #[trigger]
                bits::bit(m, t) <==> exists|x: int|
                    bits::bit(all, x) && !bits::bit(it.0, x) && #[trigger] slider_reaches(
                        pos@,
                        c,
                        x,
                        t,
                    ),
        ensures
            it.0 == 0,
        decreases it.0,
    {
        let ghost rest = it.0;
        let ghost before = m;
        match it.next() {
            None => break,
            Some(s) => {
                let a: u64 = slider_attacks(pt, s, pos.occ);
                m = m | a;
                proof {
                    lemma_slider_reaches(*pos, pt, s as int, a);
                    assert(bits::bit(all, s as int));
                    assert forall|t: int| #[trigger]
                        bits::bit(m, t) <==> exists|x: int|
                            bits::bit(all, x) && !bits::bit(it.0, x) && #[trigger] slider_reaches(
                                pos@,
                                c,
                                x,
                                t,
                            ) by {
                        assert(slider_reaches(pos@, c, s as int, t) <==> bits::bit(a, t));
                        if bits::bit(before, t) {
                            let x = choose|x: int|
                                bits::bit(all, x) && !bits::bit(rest, x)
                                    && #[trigger] slider_reaches(pos@, c, x, t);
                            assert(!bits::bit(it.0, x));
                        }
                        if exists|x: int|
                            bits::bit(all, x) && !bits::bit(it.0, x) && #[trigger] slider_reaches(
                                pos@,
                                c,
                                x,
                                t,
                            ) {
                            let x = choose|x: int|
                                bits::bit(all, x) && !bits::bit(it.0, x)
                                    && #[trigger] slider_reaches(pos@, c, x, t);
                            assert(x == s || !bits::bit(rest, x));
                        }
                    }
                }
            },
        }
    }
    proof {
        assert forall|t: int| #[trigger]
            bits::bit(m, t) <==> exists|x: int|
                rules::stands(pos@, (c, pt), x) && #[trigger] slider_reaches(pos@, c, x, t) by {
            if bits::bit(m, t) {
                let x = choose|x: int|
                    bits::bit(all, x) && !bits::bit(it.0, x) && #[trigger] slider_reaches(
                        pos@,
                        c,
                        x,
                        t,
                    );
                assert(rules::stands(pos@, (c, pt), x));
            }
            if exists|x: int|
                rules::stands(pos@, (c, pt), x) && #[trigger] slider_reaches(pos@, c, x, t) {
                let x = choose|x: int|
                    rules::stands(pos@, (c, pt), x) && #[trigger] slider_reaches(pos@, c, x, t);
                assert(bits::bit(all, x) && !bits::bit(it.0, x));
            }
        }
    }
    m
}

/// The squares that rooks and bishops of colour `c` can land on.
pub fn slider_reach(pos: &Position, c: Color) -> (m: Bitboard)
    requires
        pos.wf(),
    ensures
        forall|t: int| #[trigger]
            bits::bit(m, t) <==> exists|x: int| #[trigger] slider_reaches(pos@, c, x, t),
{
    let r: u64 = reach_of(pos, c, PieceType::Rook);
    let b: u64 = reach_of(pos, c, PieceType::Bishop);
    proof {
        assert forall|t: int| #[trigger]
            bits::bit(r | b, t) <==> exists|x: int| #[trigger] slider_reaches(pos@, c, x, t) by {
            if exists|x: int| #[trigger] slider_reaches(pos@, c, x, t) {
                let x = choose|x: int| #[trigger] slider_reaches(pos@, c, x, t);
                assert(rules::stands(pos@, (c, rules::kind_on(pos@, x)), x));
            }
        }
    }
    r | b
}

/// Where a pawn of colour `us` would block a slider of type `pt`.
fn blocks(pos: &Position, us: Color, pt: PieceType, k: usize) -> (m: Bitboard)
    requires
        pos.wf(),
        pt == PieceType::Rook || pt == PieceType::Bishop,
        k < 64,
    ensures
        forall|t: int| #[trigger]
            bits::bit(m, t) <==> geom::valid(t) && exists|x: int|
                rules::stands(pos@, (us.other(), pt), x) && #[trigger] slider_reaches(
                    pos@,
                    us.other(),
                    x,
                    k as int,
                ) && geom::between(x, k as int, t),
{
    let them = us.flip();
    let all: u64 = pos.bb_of(them, pt);
    let mut m: u64 = 0;
    let mut it = types::bits(all);
    loop
        invariant
            pos.wf(),
            them == us.other(),
            k < 64,
            pt == PieceType::Rook || pt == PieceType::Bishop,
            forall|x: int|
                #![trigger bits::bit(all, x)]
                #![trigger rules::stands(pos@, (them, pt), x)]
                bits::bit(all, x) <==> rules::stands(pos@, (them, pt), x),
            forall|x: int| #[trigger] bits::bit(it.0, x) ==> bits::bit(all, x),
            forall|t: int| #[trigger]
                bits::bit(m, t) <==> geom::valid(t) && exists|x: int|
                    bits::bit(all, x) && !bits::bit(it.0, x) && #[trigger] slider_reaches(
                        pos@,
                        them,
                        x,
                        k as int,
                    ) && geom::between(x, k as int, t),
        ensures
            it.0 == 0,
        decreases it.0,
    {
        let ghost rest = it.0;
        let ghost before = m;
        match it.next() {
            None => break,
            Some(s) => {
                let a: u64 = slider_attacks(pt, s, pos.occ);
                proof {
                    lemma_slider_reaches(*pos, pt, s as int, a);
                    assert(bits::bit(all, s as int));
                    assert(rules::stands(pos@, (them, pt), s as int));
                    assert(slider_reaches(pos@, them, s as int, k as int) <==> bits::bit(
                        a,
                        k as int,
                    ));
                }
                if in_board(a, k) {
                    m = m | between_mask(s, k);
                }
                proof {
                    assert forall|t: int| #[trigger]
                        bits::bit(m, t) <==> geom::valid(t) && exists|x: int|
                            bits::bit(all, x) && !bits::bit(it.0, x) && #[trigger] slider_reaches(
                                pos@,
                                them,
                                x,
                                k as int,
                            ) && geom::between(x, k as int, t) by {
                        if bits::bit(before, t) {
                            let x = choose|x: int|
                                bits::bit(all, x) && !bits::bit(rest, x)
                                    && #[trigger] slider_reaches(pos@, them, x, k as int)
                                    && geom::between(x, k as int, t);
                            assert(!bits::bit(it.0, x));
                        }
                        if exists|x: int|
                            bits::bit(all, x) && !bits::bit(it.0, x) && #[trigger] slider_reaches(
                                pos@,
                                them,
                                x,
                                k as int,
                            ) && geom::between(x, k as int, t) {
                            let x = choose|x: int|
                                bits::bit(all, x) && !bits::bit(it.0, x)
                                    && #[trigger] slider_reaches(pos@, them, x, k as int)
                                    && geom::between(x, k as int, t);
                            assert(x == s || !bits::bit(rest, x));
                        }
                    }
                }
            },
        }
    }
    proof {
        assert forall|t: int| #[trigger]
            bits::bit(m, t) <==> geom::valid(t) && exists|x: int|
                rules::stands(pos@, (them, pt), x) && #[trigger] slider_reaches(
                    pos@,
                    them,
                    x,
                    k as int,
                ) && geom::between(x, k as int, t) by {
            if bits::bit(m, t) {
                let x = choose|x: int|
                    bits::bit(all, x) && !bits::bit(it.0, x) && #[trigger] slider_reaches(
                        pos@,
                        them,
                        x,
                        k as int,
                    ) && geom::between(x, k as int, t);
                assert(rules::stands(pos@, (them, pt), x));
            }
            if geom::valid(t) && exists|x: int|
                rules::stands(pos@, (them, pt), x) && #[trigger] slider_reaches(
                    pos@,
                    them,
                    x,
                    k as int,
                ) && geom::between(x, k as int, t) {
                let x = choose|x: int|
                    rules::stands(pos@, (them, pt), x) && #[trigger] slider_reaches(
                        pos@,
                        them,
                        x,
                        k as int,
                    ) && geom::between(x, k as int, t);
                assert(bits::bit(all, x) && !bits::bit(it.0, x));
            }
        }
    }
    m
}

/// The squares of `among` with a neighbour in `wanted`.
fn next_to(among: Bitboard, goals: Bitboard) -> (m: Bitboard)
    ensures
        forall|t: int| #[trigger]
            bits::bit(m, t) <==> bits::bit(among, t) && exists|y: int| #[trigger]
                bits::bit(goals, y) && geom::adjacent(t, y),
{
    let mut m: u64 = 0;
    let mut it = types::bits(among);
    loop
        invariant
            forall|t: int| #[trigger] bits::bit(it.0, t) ==> bits::bit(among, t),
            forall|t: int| #[trigger]
                bits::bit(m, t) <==> bits::bit(among, t) && !bits::bit(it.0, t) && exists|y: int|
                    #[trigger] bits::bit(goals, y) && geom::adjacent(t, y),
        ensures
            it.0 == 0,
        decreases it.0,
    {
        match it.next() {
            None => break,
            Some(c) => {
                let near: u64 = ring_mask(c) & goals;
                proof {
                    bits::lemma_empty_board(near);
                    if near != 0 {
                        let y = choose|y: int| #[trigger] bits::bit(near, y);
                        assert(bits::bit(goals, y));
                    } else {
                        assert forall|y: int| #[trigger] bits::bit(goals, y) implies !geom::adjacent(
                            c as int,
                            y,
                        ) by {
                            assert(!bits::bit(near, y));
                        }
                    }
                }
                if near != 0 {
                    m = m | bb(c);
                }
            },
        }
    }
    m
}

/// Picks up to `n` set bits spread evenly through `mask`. Deterministic — the
/// engine must be reproducible for gating and perft-style diffing.
fn sample_spread(mask: Bitboard, n: usize) -> (m: Bitboard)
    ensures
        forall|s: int| #[trigger]
            bits::bit(m, s) <==> sampled(|t: int| bits::bit(mask, t), n as int, s),
{
    let ghost p = |t: int| bits::bit(mask, t);
    let total: usize = mask.count_ones() as usize;
    proof {
        bits::lemma_count_bounds(p, 64);
    }
    if total == 0 || n == 0 {
        proof {
            if total == 0 {
                bits::lemma_count_zero(p, 64);
                assert forall|s: int| !sampled(p, n as int, s) by {
                    if geom::valid(s) {
                        assert(!p(s));
                    }
                }
            }
        }
        return 0;
    }
    if total <= n {
        return mask;
    }
    let step: usize = total / n;
    let mut out: u64 = 0;
    let mut taken: usize = 0;
    let mut i: usize = 0;
    let mut it = types::bits(mask);
    let ghost mut seen: int = 0;
    proof {
        assert(step >= 1) by (nonlinear_arith)
            requires
                step == total / n,
                total > n,
                n > 0,
        ;
        vstd::arithmetic::div_mod::lemma_basic_div(step - 1, step as int);
    }
    loop
        invariant
            p == (|t: int| bits::bit(mask, t)),
            total == bits::count_squares(p),
            n < total <= 64,
            n > 0,
            step == total / n,
            step >= 1,
            0 <= seen <= 64,
            i == bits::count_below(p, seen as nat),
            i <= seen,
            forall|t: int| #[trigger] bits::bit(it.0, t) <==> bits::bit(mask, t) && t >= seen,
            taken <= n,
            taken == (if (i + step - 1) / step as int <= n {
                (i + step - 1) / step as int
            } else {
                n as int
            }),
            forall|s: int| #[trigger]
                bits::bit(out, s) <==> s < seen && sampled(p, n as int, s),
        ensures
            it.0 == 0,
        decreases it.0,
    {
        let ghost rest = it.0;
        match it.next() {
            None => break,
            Some(s) => {
                proof {
                    assert(bits::bit(rest, s as int));
                    assert forall|t: int| seen <= t < s implies !#[trigger] p(t) by {
                        if p(t) {
                            assert(bits::bit(rest, t));
                        }
                    }
                    bits::lemma_count_gap(p, seen as nat, s as nat);
                    lemma_sample_step(i as int, step as int);
                    assert(p(s as int));
                }
                let ghost before = out;
                assert(sampled(p, n as int, s as int) <==> i % step == 0 && taken < n);
                if i % step == 0 && taken < n {
                    out = out | bb(s);
                    taken += 1;
                }
                i += 1;
                proof {
                    assert forall|t: int| #[trigger]
                        bits::bit(out, t) <==> t < s + 1 && sampled(p, n as int, t) by {
                        if sampled(p, n as int, t) && seen <= t < s {
                            assert(!p(t));
                        }
                    }
                    seen = s + 1;
                    bits::lemma_count_bounds(p, seen as nat);
                }
            },
        }
    }
    proof {
        assert forall|s: int| #[trigger] bits::bit(out, s) <==> sampled(p, n as int, s) by {
            if sampled(p, n as int, s) && s >= seen {
                assert(bits::bit(mask, s));
                assert(bits::bit(it.0, s));
            }
        }
    }
    out
}

/// How often a multiple of `step` has come up among the numbers below `i`.
proof fn lemma_sample_step(i: int, step: int)
    requires
        i >= 0,
        step >= 1,
    ensures
        i % step == 0 ==> (i + step - 1) / step == i / step && (i + step) / step == i / step + 1,
        i % step != 0 ==> (i + step - 1) / step == i / step + 1 && (i + step) / step == i / step
            + 1,
        i % step != 0 ==> i / step + 1 == (i + step - 1) / step,
{
    let q = i / step;
    let r = i % step;
    vstd::arithmetic::div_mod::lemma_fundamental_div_mod(i, step);
    vstd::arithmetic::mul::lemma_mul_is_commutative(step, q);
    assert(i == q * step + r);
    assert((q + 1) * step == q * step + step) by (nonlinear_arith);
    if r == 0 {
        vstd::arithmetic::div_mod::lemma_fundamental_div_mod_converse(i + step - 1, step, q, step - 1);
        vstd::arithmetic::div_mod::lemma_fundamental_div_mod_converse(i + step, step, q + 1, 0);
    } else {
        vstd::arithmetic::div_mod::lemma_fundamental_div_mod_converse(
            i + step - 1,
            step,
            q + 1,
            r - 1,
        );
        vstd::arithmetic::div_mod::lemma_fundamental_div_mod_converse(i + step, step, q + 1, r);
    }
}

/// The neighbours of the king of colour `c`, if there is one.
fn king_ring(pos: &Position, c: Color) -> (m: Bitboard)
    requires
        pos.wf(),
    ensures
        forall|s: int| #[trigger] bits::bit(m, s) <==> geom::valid(s) && near_king(pos@, c, s),
{
    match pos.king_sq(c) {
        Some(k) => ring_mask(k),
        None => 0,
    }
}

/// The three-by-three region of the king of colour `c`, if there is one.
fn king_blast(pos: &Position, c: Color) -> (m: Bitboard)
    requires
        pos.wf(),
    ensures
        forall|s: int| #[trigger] bits::bit(m, s) <==> geom::valid(s) && in_king_blast(pos@, c, s),
{
    match pos.king_sq(c) {
        Some(k) => blast_mask(k),
        None => 0,
    }
}

/// Where a pawn of colour `us` would block a slider that can land on its king.
fn block_squares(pos: &Position, us: Color) -> (m: Bitboard)
    requires
        pos.wf(),
    ensures
        forall|s: int| #[trigger] bits::bit(m, s) <==> geom::valid(s) && interposes(pos@, us, s),
{
    match pos.king_sq(us) {
        Some(k) => {
            let r: u64 = blocks(pos, us, PieceType::Rook, k);
            let b: u64 = blocks(pos, us, PieceType::Bishop, k);
            proof {
                assert forall|s: int| #[trigger]
                    bits::bit(r | b, s) <==> geom::valid(s) && interposes(pos@, us, s) by {
                    assert(bits::bit(r | b, s) <==> bits::bit(r, s) || bits::bit(b, s));
                    let at = rules::king_square(pos@, us)->0;
                    assert(at == k);
                    if bits::bit(r, s) {
                        let x = choose|x: int|
                            rules::stands(pos@, (us.other(), PieceType::Rook), x)
                                && #[trigger] slider_reaches(pos@, us.other(), x, k as int)
                                && geom::between(x, k as int, s);
                        assert(slider_reaches(pos@, us.other(), x, at));
                    }
                    if bits::bit(b, s) {
                        let x = choose|x: int|
                            rules::stands(pos@, (us.other(), PieceType::Bishop), x)
                                && #[trigger] slider_reaches(pos@, us.other(), x, k as int)
                                && geom::between(x, k as int, s);
                        assert(slider_reaches(pos@, us.other(), x, at));
                    }
                    if geom::valid(s) && interposes(pos@, us, s) {
                        let x = choose|x: int| #[trigger]
                            slider_reaches(pos@, us.other(), x, k as int) && geom::between(
                                x,
                                k as int,
                                s,
                            );
                        if rules::kind_on(pos@, x) == PieceType::Rook {
                            assert(rules::stands(pos@, (us.other(), PieceType::Rook), x));
                            assert(bits::bit(r, s));
                        } else {
                            assert(rules::stands(pos@, (us.other(), PieceType::Bishop), x));
                            assert(bits::bit(b, s));
                        }
                    }
                }
            }
            r | b
        },
        None => 0,
    }
}

/// `pawns x empty_squares` is ~250 in the opening, which makes alpha-beta
/// hopeless. Restrict destinations to the ones that can matter:
///
/// 1. adjacent to either king — creating or denying a detonator,
/// 2. on a ray between an enemy slider and our king — blocking a mate threat,
/// 3. adjacent to a friendly rook/bishop's reach where detonating would pay,
/// 4. a small spread sample of neutral parking squares, so a pawn sitting next to
///    our own king can always be evacuated.
///
/// This cuts ~250 targets to roughly 15-25. `GenMode::All` keeps the full set for
/// perft.
pub fn teleport_targets(pos: &Position, us: Color) -> (m: Bitboard)
    requires
        pos.wf(),
    ensures
        forall|s: int| #[trigger] bits::bit(m, s) <==> teleport_target(pos@, us, s),
{
    let them = us.flip();
    let empty: u64 = pos.empty_squares();

    // 1. Both king rings.
    // 2. Interposition squares against a slider that can currently reach our
    //    king's square (landing there detonates the 3x3 and kills the king).
    let near: u64 = king_ring(pos, us) | king_ring(pos, them) | block_squares(pos, us);

    // 3. Squares one of our own rooks/bishops can reach, whose 3x3 blast would
    //    catch an enemy non-pawn. Teleporting a pawn there manufactures the
    //    detonator.
    let reach: u64 = slider_reach(pos, us);
    let goals: u64 = pos.occ_color[them.index()] & !pos.bb_of(them, PieceType::Pawn);
    let prime: u64 = next_to(reach & empty, goals);
    let targets: u64 = (near | prime) & empty;

    // 4. Parking squares: quiet, away from both kings.
    let rest: u64 = empty & !targets & !king_blast(pos, us) & !king_blast(pos, them);
    let parking: u64 = sample_spread(rest, 4);
    proof {
        assert forall|y: int|
            #![trigger bits::bit(goals, y)]
            #![trigger worthwhile(pos@, them, y)]
            bits::bit(goals, y) <==> worthwhile(pos@, them, y) by {
            assert(bits::bit(goals, y) <==> bits::bit(pos.occ_color@[them.code()], y) && !bits::bit(
                pos.pieces@[types::man_code((them, PieceType::Pawn))],
                y,
            ) && geom::valid(y));
            if geom::valid(y) {
                assert(bits::bit(pos.occ_color@[them.code()], y) <==> rules::held_by(
                    pos@,
                    them,
                    y,
                ));
                assert(rules::stands(pos@, (them, PieceType::Pawn), y) <==> rules::held_by(
                    pos@,
                    them,
                    y,
                ) && rules::kind_on(pos@, y) == PieceType::Pawn);
            }
        }
        assert forall|s: int| #[trigger] bits::bit(targets, s) <==> useful(pos@, us, s) by {
            if geom::valid(s) && !rules::occupied(pos@, s) {
                if bits::bit(prime, s) {
                    let y = choose|y: int| #[trigger]
                        bits::bit(goals, y) && geom::adjacent(s, y);
                    assert(worthwhile(pos@, them, y));
                    assert(bits::bit(reach, s));
                    assert(primes(pos@, us, s));
                }
                if primes(pos@, us, s) {
                    let y = choose|y: int| #[trigger]
                        worthwhile(pos@, us.other(), y) && geom::adjacent(s, y);
                    assert(bits::bit(goals, y));
                    assert(bits::bit(reach, s));
                    assert(bits::bit(reach & empty, s));
                }
            }
        }
        assert forall|s: int| #[trigger] bits::bit(rest, s) <==> quiet(pos@, us, s) by {
            assert(bits::bit(targets, s) <==> useful(pos@, us, s));
        }
        let p = |t: int| bits::bit(rest, t);
        let q = |t: int| quiet(pos@, us, t);
        bits::lemma_count_ext(p, q, 64);
        assert forall|s: int| sampled(p, 4, s) <==> sampled(q, 4, s) by {
            if geom::valid(s) {
                bits::lemma_count_ext(p, q, s as nat);
                assert(p(s) == q(s));
            }
        }
        assert forall|s: int| #[trigger]
            bits::bit(targets | parking, s) <==> teleport_target(pos@, us, s) by {
            assert(bits::bit(parking, s) <==> sampled(p, 4, s));
            assert(sampled(p, 4, s) <==> sampled(q, 4, s));
        }
    }
    targets | parking
}

// ---------------------------------------------------------------------------
// Entry point
// ---------------------------------------------------------------------------

proof fn lemma_kept_push(s: Seq<Move>, m: Move)
    ensures
        kept(s).len() < 512 ==> kept(s.push(m)) == kept(s).push(m),
        kept(s).len() >= 512 ==> kept(s.push(m)) == kept(s),
{
    if s.len() >= 512 {
        assert(s.push(m).take(512) =~= s.take(512));
        assert(s.take(512) =~= kept(s));
    }
}

proof fn lemma_among_gap(g: Game, mode: GenMode, from: int, c: Seq<int>, lo: int, hi: int)
    requires
        0 <= lo <= hi,
        forall|i: int| lo <= i < hi ==> !wanted(g, mode, from, #[trigger] c[i]),
    ensures
        moves_among(g, mode, from, c, hi) == moves_among(g, mode, from, c, lo),
    decreases hi - lo,
{
    if lo < hi {
        lemma_among_gap(g, mode, from, c, lo, hi - 1);
        assert(!wanted(g, mode, from, c[hi - 1]));
    }
}

/// Pushes the moves from `from` to each square of `targets`, ascending.
fn push_targets(
    list: &mut MoveList,
    from: usize,
    targets: Bitboard,
    Ghost(g): Ghost<Game>,
    Ghost(mode): Ghost<GenMode>,
    Ghost(pre): Ghost<Seq<Move>>,
)
    requires
        old(list).wf(),
        old(list)@ == kept(pre),
        from < 64,
        forall|t: int| #[trigger] bits::bit(targets, t) <==> wanted(g, mode, from as int, t),
    ensures
        final(list).wf(),
        final(list)@ == kept(
            pre + moves_among(
                g,
                mode,
                from as int,
                candidates(PieceType::King, from as int),
                64,
            ),
        ),
        final(list).scores == old(list).scores,
{
    let ghost c = candidates(PieceType::King, from as int);
    let mut it = types::bits(targets);
    let ghost mut seen: int = 0;
    proof {
        assert(pre + moves_among(g, mode, from as int, c, 0) =~= pre);
    }
    loop
        invariant
            list.wf(),
            from < 64,
            c == candidates(PieceType::King, from as int),
            forall|t: int| #[trigger] bits::bit(targets, t) <==> wanted(g, mode, from as int, t),
            0 <= seen <= 64,
            forall|t: int| #[trigger] bits::bit(it.0, t) <==> bits::bit(targets, t) && t >= seen,
            list@ == kept(pre + moves_among(g, mode, from as int, c, seen)),
            list.scores == old(list).scores,
        ensures
            it.0 == 0,
        decreases it.0,
    {
        let ghost rest = it.0;
        match it.next() {
            None => break,
            Some(to) => {
                proof {
                    assert(bits::bit(rest, to as int));
                    assert forall|i: int| seen <= i < to implies !wanted(
                        g,
                        mode,
                        from as int,
                        #[trigger] c[i],
                    ) by {
                        if wanted(g, mode, from as int, c[i]) {
                            assert(bits::bit(targets, i));
                            assert(bits::bit(rest, i));
                        }
                    }
                    lemma_among_gap(g, mode, from as int, c, seen, to as int);
                    let before = pre + moves_among(g, mode, from as int, c, to as int);
                    let m = types::move_of(from as int, to as int);
                    lemma_kept_push(before, m);
                    assert(bits::bit(targets, to as int));
                    assert(c[to as int] == to);
                    assert(pre + moves_among(g, mode, from as int, c, to + 1) =~= before.push(m));
                    assert(list@.len() == list.len);
                }
                list.push(Move::new(from, to));
                proof {
                    seen = to + 1;
                }
            },
        }
    }
    proof {
        assert forall|i: int| seen <= i < 64 implies !wanted(
            g,
            mode,
            from as int,
            #[trigger] c[i],
        ) by {
            if wanted(g, mode, from as int, c[i]) {
                assert(bits::bit(targets, i));
                assert(bits::bit(it.0, i));
            }
        }
        lemma_among_gap(g, mode, from as int, c, seen, 64);
    }
}

/// Pushes the wanted leaps of the knight on `from`.
fn push_leaps(
    list: &mut MoveList,
    from: usize,
    occ: Bitboard,
    caps_only: bool,
    Ghost(g): Ghost<Game>,
    Ghost(mode): Ghost<GenMode>,
    Ghost(pre): Ghost<Seq<Move>>,
)
    requires
        old(list).wf(),
        old(list)@ == kept(pre),
        from < 64,
        rules::stands(g, (g.side, PieceType::Knight), from as int),
        forall|s: int| #[trigger] bits::bit(occ, s) <==> rules::occupied(g, s),
        caps_only == (mode == GenMode::Captures),
    ensures
        final(list).wf(),
        final(list)@ == kept(pre + moves_from(g, mode, PieceType::Knight, from as int)),
        final(list).scores == old(list).scores,
{
    let ghost c = candidates(PieceType::Knight, from as int);
    let mut k: usize = 0;
    proof {
        assert(pre + moves_among(g, mode, from as int, c, 0) =~= pre);
    }
    while k < 8
        invariant
            list.wf(),
            from < 64,
            k <= 8,
            c == candidates(PieceType::Knight, from as int),
            rules::stands(g, (g.side, PieceType::Knight), from as int),
            forall|s: int| #[trigger] bits::bit(occ, s) <==> rules::occupied(g, s),
            caps_only == (mode == GenMode::Captures),
            list@ == kept(pre + moves_among(g, mode, from as int, c, k as int)),
            list.scores == old(list).scores,
        decreases 8 - k,
    {
        let to: usize = knight_dest(from, k);
        assert(c[k as int] == to);
        if to < 64 {
            let hit: u64 = knight_path_mask(from, to) & occ;
            proof {
                bits::lemma_empty_board(hit);
                if hit != 0 {
                    let s = choose|s: int| #[trigger] bits::bit(hit, s);
                    assert(rules::hits(g, from as int, to as int, s));
                } else {
                    assert forall|s: int| !#[trigger] rules::hits(g, from as int, to as int, s) by {
                        assert(!bits::bit(hit, s));
                        assert(bits::bit(occ, s) <==> rules::occupied(g, s));
                    }
                }
                assert(wanted(g, mode, from as int, to as int) <==> !caps_only || hit != 0);
            }
            if !caps_only || hit != 0 {
                proof {
                    let before = pre + moves_among(g, mode, from as int, c, k as int);
                    let m = types::move_of(from as int, to as int);
                    lemma_kept_push(before, m);
                    assert(pre + moves_among(g, mode, from as int, c, k + 1) =~= before.push(m));
                    assert(list@.len() == list.len);
                }
                list.push(Move::new(from, to));
            }
        }
        k += 1;
    }
}

/// What a queen on `from` meets on ray `d` within `i` steps: nothing, or `first` alone.
spec fn met(g: Game, d: int, from: int, i: int, none: bool, first: int) -> bool {
    if none {
        forall|x: int| #[trigger]
            rules::occupied(g, x) && geom::dir(from, x) == d ==> geom::dist(from, x) > i
    } else {
        &&& rules::occupied(g, first)
        &&& geom::dir(from, first) == d
        &&& geom::dist(from, first) <= i
        &&& forall|x: int| #[trigger]
            rules::occupied(g, x) && geom::dir(from, x) == d && geom::dist(from, x) <= i ==> x
                == first
    }
}

/// Whether the queen's move to the next square of a ray is wanted.
proof fn lemma_sweep(g: Game, mode: GenMode, d: int, from: int, i: int, none: bool, first: int)
    requires
        rules::stands(g, (g.side, PieceType::Queen), from),
        0 <= d < 8,
        0 <= i < geom::ray_len(d, from),
        met(g, d, from, i, none, first),
    ensures
        ({
            let to = geom::ray_square(d, from, i + 1);
            wanted(g, mode, from, to) <==> mode != GenMode::Captures || !none || rules::occupied(
                g,
                to,
            )
        }),
{
    let to = geom::ray_square(d, from, i + 1);
    geom::lemma_ray_square(d, from, i + 1);
    assert(rules::one_on_line(g, from, to)) by {
        assert forall|x: int, y: int|
            #[trigger] rules::occupied(g, x) && #[trigger] rules::occupied(g, y) && geom::between(
                from,
                to,
                x,
            ) && geom::between(from, to, y) implies x == y by {}
    }
    assert(rules::legal(g, from, to));
    if !none {
        assert(rules::hits(g, from, to, first));
    } else if rules::occupied(g, to) {
        assert(rules::hits(g, from, to, to));
    } else {
        assert forall|s: int| !#[trigger] rules::hits(g, from, to, s) by {
            if rules::occupied(g, s) && geom::between(from, to, s) {
                assert(geom::dist(from, s) <= i);
            }
        }
    }
}

/// Beyond the second piece on a ray nothing is wanted.
proof fn lemma_blocked(g: Game, mode: GenMode, d: int, from: int, x: int, y: int, t: int)
    requires
        rules::stands(g, (g.side, PieceType::Queen), from),
        rules::occupied(g, x),
        rules::occupied(g, y),
        x != y,
        geom::dir(from, x) == d,
        geom::dir(from, y) == d,
        geom::dir(from, t) == d,
        0 <= d < 8,
        geom::dist(from, x) < geom::dist(from, t),
        geom::dist(from, y) < geom::dist(from, t),
    ensures
        !wanted(g, mode, from, t),
{
    assert(geom::between(from, t, x));
    assert(geom::between(from, t, y));
}

/// Pushes the wanted moves of the queen on `from`: a forced sweeper, with a hard
/// stop after the second capture.
fn push_sweeps(
    list: &mut MoveList,
    from: usize,
    occ: Bitboard,
    caps_only: bool,
    Ghost(g): Ghost<Game>,
    Ghost(mode): Ghost<GenMode>,
    Ghost(pre): Ghost<Seq<Move>>,
)
    requires
        old(list).wf(),
        old(list)@ == kept(pre),
        from < 64,
        rules::stands(g, (g.side, PieceType::Queen), from as int),
        forall|s: int| #[trigger] bits::bit(occ, s) <==> rules::occupied(g, s),
        caps_only == (mode == GenMode::Captures),
    ensures
        final(list).wf(),
        final(list)@ == kept(pre + moves_from(g, mode, PieceType::Queen, from as int)),
        final(list).scores == old(list).scores,
{
    let ghost c = candidates(PieceType::Queen, from as int);
    let mut d: usize = 0;
    proof {
        assert(pre + moves_among(g, mode, from as int, c, 0) =~= pre);
    }
    while d < 8
        invariant
            list.wf(),
            from < 64,
            d <= 8,
            c == candidates(PieceType::Queen, from as int),
            rules::stands(g, (g.side, PieceType::Queen), from as int),
            forall|s: int| #[trigger] bits::bit(occ, s) <==> rules::occupied(g, s),
            caps_only == (mode == GenMode::Captures),
            list@ == kept(pre + moves_among(g, mode, from as int, c, 7 * d)),
            list.scores == old(list).scores,
        decreases 8 - d,
    {
        let n: usize = ray_len(d, from);
        let mut none: bool = true;
        let mut i: usize = 0;
        let ghost mut first: int = 0;
        let ghost mut second: int = 0;
        let ghost mut stopped: bool = false;
        proof {
            assert forall|x: int| #[trigger]
                rules::occupied(g, x) && geom::dir(from as int, x) == d implies geom::dist(
                from as int,
                x,
            ) > 0 by {
                geom::lemma_on_ray(d as int, from as int, x);
            }
        }
        while i < n
            invariant_except_break
                met(g, d as int, from as int, i as int, none, first),
                !stopped,
            invariant
                list.wf(),
                from < 64,
                d < 8,
                n == geom::ray_len(d as int, from as int),
                n <= 7,
                i <= n,
                c == candidates(PieceType::Queen, from as int),
                rules::stands(g, (g.side, PieceType::Queen), from as int),
                forall|s: int| #[trigger] bits::bit(occ, s) <==> rules::occupied(g, s),
                caps_only == (mode == GenMode::Captures),
                list@ == kept(pre + moves_among(g, mode, from as int, c, 7 * d + i)),
                list.scores == old(list).scores,
            ensures
                stopped ==> {
                    &&& first != second
                    &&& rules::occupied(g, first)
                    &&& rules::occupied(g, second)
                    &&& geom::dir(from as int, first) == d
                    &&& geom::dir(from as int, second) == d
                    &&& geom::dist(from as int, first) <= i
                    &&& geom::dist(from as int, second) <= i
                },
                !stopped ==> i == n,
            decreases n - i,
        {
            let to: usize = ray_square(d, from, i + 1);
            let occupied: bool = in_board(occ, to);
            let ghost at = 7 * d + i;
            proof {
                lemma_sweep(g, mode, d as int, from as int, i as int, none, first);
                assert(at / 7 == d && at % 7 == i);
                assert(c[at] == to);
            }
            if !caps_only || !none || occupied {
                proof {
                    let before = pre + moves_among(g, mode, from as int, c, at);
                    let m = types::move_of(from as int, to as int);
                    lemma_kept_push(before, m);
                    assert(pre + moves_among(g, mode, from as int, c, at + 1) =~= before.push(m));
                    assert(list@.len() == list.len);
                }
                list.push(Move::new(from, to));
            }
            proof {
                assert forall|x: int| #[trigger]
                    rules::occupied(g, x) && geom::dir(from as int, x) == d && geom::dist(
                        from as int,
                        x,
                    ) <= i + 1 && x != to implies geom::dist(from as int, x) <= i by {
                    geom::lemma_on_ray(d as int, from as int, x);
                }
            }
            i += 1;
            if occupied {
                if none {
                    none = false;
                    proof {
                        first = to as int;
                    }
                } else {
                    proof {
                        second = to as int;
                        stopped = true;
                    }
                    break;
                }
            }
        }
        proof {
            assert forall|j: int| 7 * d + i <= j < 7 * d + 7 implies !wanted(
                g,
                mode,
                from as int,
                #[trigger] c[j],
            ) by {
                assert(j / 7 == d);
                if j % 7 < n {
                    geom::lemma_ray_square(d as int, from as int, j % 7 + 1);
                    lemma_blocked(g, mode, d as int, from as int, first, second, c[j]);
                }
            }
            lemma_among_gap(g, mode, from as int, c, 7 * d + i, 7 * d + 7);
        }
        d += 1;
    }
}

proof fn lemma_landing_captures(g: Game, from: int, to: int)
    requires
        rules::legal(g, from, to),
        rules::kind_on(g, from) == PieceType::King || rules::kind_on(g, from) == PieceType::Rook
            || rules::kind_on(g, from) == PieceType::Bishop || rules::kind_on(g, from)
            == PieceType::Pawn,
    ensures
        captures(g, from, to) <==> rules::occupied(g, to),
{
    if rules::occupied(g, to) {
        assert(rules::hits(g, from, to, to));
    }
}

/// Where the king, rook, bishop or pawn on `from` is wanted to go.
fn targets_from(
    pos: &Position,
    pt: PieceType,
    from: usize,
    caps_only: bool,
    teleports: Bitboard,
    Ghost(mode): Ghost<GenMode>,
) -> (m: Bitboard)
    requires
        pos.wf(),
        from < 64,
        pt == PieceType::King || pt == PieceType::Rook || pt == PieceType::Bishop || pt
            == PieceType::Pawn,
        rules::stands(pos@, (pos@.side, pt), from as int),
        caps_only == (mode == GenMode::Captures),
        pt == PieceType::Pawn ==> forall|t: int| #[trigger]
            bits::bit(teleports, t) <==> geom::valid(t) && !rules::occupied(pos@, t) && (mode
                == GenMode::Search ==> teleport_target(pos@, pos@.side, t)),
    ensures
        forall|t: int| #[trigger] bits::bit(m, t) <==> wanted(pos@, mode, from as int, t),
{
    let all: u64 = match pt {
        PieceType::King => ring_mask(from),
        PieceType::Pawn => teleports,
        _ => slider_attacks(pt, from, pos.occ),
    };
    // Only landing on an occupied square captures or detonates; quiet moves
    // change no material.
    let m: u64 = if caps_only {
        all & pos.occ
    } else {
        all
    };
    proof {
        if pt == PieceType::Rook || pt == PieceType::Bishop {
            lemma_slider_reaches(*pos, pt, from as int, all);
        }
        assert forall|t: int| #[trigger]
            bits::bit(m, t) <==> wanted(pos@, mode, from as int, t) by {
            if pt == PieceType::Rook || pt == PieceType::Bishop {
                assert(slider_reaches(pos@, pos@.side, from as int, t) <==> bits::bit(all, t));
                assert(slider_reaches(pos@, pos@.side, from as int, t) <==> rules::legal(
                    pos@,
                    from as int,
                    t,
                ));
            }
            assert(bits::bit(pos.occ, t) <==> rules::occupied(pos@, t)) by {
                if geom::valid(t) {
                    assert(bits::bit(pos.occ, t) <==> pos@.board[t] is Some);
                }
            }
            if rules::legal(pos@, from as int, t) {
                lemma_landing_captures(pos@, from as int, t);
            }
        }
    }
    m
}

/// Pushes the wanted moves of every piece of type `pt` of the side to move.
fn push_kind(
    pos: &Position,
    pt: PieceType,
    mode: GenMode,
    teleports: Bitboard,
    list: &mut MoveList,
    Ghost(pre): Ghost<Seq<Move>>,
)
    requires
        pos.wf(),
        old(list).wf(),
        old(list)@ == kept(pre),
        pt == PieceType::Pawn ==> forall|t: int| #[trigger]
            bits::bit(teleports, t) <==> geom::valid(t) && !rules::occupied(pos@, t) && (mode
                == GenMode::Search ==> teleport_target(pos@, pos@.side, t)),
    ensures
        final(list).wf(),
        final(list)@ == kept(pre + moves_of(pos@, mode, pt, 64)),
        final(list).scores == old(list).scores,
{
    let ghost g = pos@;
    let caps_only: bool = mode == GenMode::Captures;
    let all: u64 = pos.bb_of(pos.side, pt);
    let occ: u64 = pos.occ;
    let mut it = types::bits(all);
    let ghost mut seen: int = 0;
    proof {
        assert(pre + moves_of(g, mode, pt, 0) =~= pre);
        assert forall|s: int| #[trigger] bits::bit(occ, s) <==> rules::occupied(g, s) by {
            if geom::valid(s) {
                assert(bits::bit(pos.occ, s) <==> pos@.board[s] is Some);
            }
        }
    }
    loop
        invariant
            pos.wf(),
            g == pos@,
            list.wf(),
            caps_only == (mode == GenMode::Captures),
            occ == pos.occ,
            forall|s: int| #[trigger] bits::bit(occ, s) <==> rules::occupied(g, s),
            forall|s: int|
                #![trigger bits::bit(all, s)]
                #![trigger rules::stands(g, (g.side, pt), s)]
                bits::bit(all, s) <==> rules::stands(g, (g.side, pt), s),
            pt == PieceType::Pawn ==> forall|t: int| #[trigger]
                bits::bit(teleports, t) <==> geom::valid(t) && !rules::occupied(pos@, t) && (mode
                    == GenMode::Search ==> teleport_target(pos@, pos@.side, t)),
            0 <= seen <= 64,
            forall|s: int| #[trigger] bits::bit(it.0, s) <==> bits::bit(all, s) && s >= seen,
            list@ == kept(pre + moves_of(g, mode, pt, seen)),
            list.scores == old(list).scores,
        ensures
            it.0 == 0,
        decreases it.0,
    {
        let ghost rest = it.0;
        match it.next() {
            None => break,
            Some(from) => {
                let ghost done = pre + moves_of(g, mode, pt, from as int);
                proof {
                    assert(bits::bit(rest, from as int));
                    assert(rules::stands(g, (g.side, pt), from as int));
                    assert forall|s: int| seen <= s < from implies !#[trigger] rules::stands(
                        g,
                        (g.side, pt),
                        s,
                    ) by {
                        if rules::stands(g, (g.side, pt), s) {
                            assert(bits::bit(all, s));
                            assert(bits::bit(rest, s));
                        }
                    }
                    lemma_moves_gap(g, mode, pt, seen, from as int);
                }
                match pt {
                    PieceType::Knight => {
                        push_leaps(list, from, occ, caps_only, Ghost(g), Ghost(mode), Ghost(done));
                    },
                    PieceType::Queen => {
                        push_sweeps(list, from, occ, caps_only, Ghost(g), Ghost(mode), Ghost(done));
                    },
                    _ => {
                        let targets: u64 = targets_from(
                            pos,
                            pt,
                            from,
                            caps_only,
                            teleports,
                            Ghost(mode),
                        );
                        push_targets(list, from, targets, Ghost(g), Ghost(mode), Ghost(done));
                    },
                }
                proof {
                    assert(pre + moves_of(g, mode, pt, from + 1) =~= done + moves_from(
                        g,
                        mode,
                        pt,
                        from as int,
                    ));
                    seen = from + 1;
                }
            },
        }
    }
    proof {
        assert forall|s: int| seen <= s < 64 implies !#[trigger] rules::stands(
            g,
            (g.side, pt),
            s,
        ) by {
            if rules::stands(g, (g.side, pt), s) {
                assert(bits::bit(all, s));
                assert(bits::bit(it.0, s));
            }
        }
        lemma_moves_gap(g, mode, pt, seen, 64);
    }
}

proof fn lemma_moves_gap(g: Game, mode: GenMode, pt: PieceType, lo: int, hi: int)
    requires
        0 <= lo <= hi,
        forall|s: int| lo <= s < hi ==> !#[trigger] rules::stands(g, (g.side, pt), s),
    ensures
        moves_of(g, mode, pt, hi) == moves_of(g, mode, pt, lo),
    decreases hi - lo,
{
    if lo < hi {
        lemma_moves_gap(g, mode, pt, lo, hi - 1);
        assert(!rules::stands(g, (g.side, pt), hi - 1));
    }
}

proof fn lemma_no_pawn_captures(g: Game, n: int)
    ensures
        moves_of(g, GenMode::Captures, PieceType::Pawn, n) == Seq::<Move>::empty(),
    decreases n,
{
    if n > 0 {
        lemma_no_pawn_captures(g, n - 1);
        let from = n - 1;
        if rules::stands(g, (g.side, PieceType::Pawn), from) {
            let c = candidates(PieceType::Pawn, from);
            assert forall|i: int| 0 <= i < 64 implies !wanted(
                g,
                GenMode::Captures,
                from,
                #[trigger] c[i],
            ) by {
                assert forall|s: int| !#[trigger] rules::hits(g, from, c[i], s) by {}
            }
            lemma_among_gap(g, GenMode::Captures, from, c, 0, 64);
            assert(moves_of(g, GenMode::Captures, PieceType::Pawn, n) =~= Seq::<Move>::empty());
        }
    }
}

/// Lists the moves of the side to move. A full list drops what comes after.
pub fn generate(pos: &Position, mode: GenMode, list: &mut MoveList)
    requires
        pos.wf(),
    ensures
        final(list).wf(),
        final(list)@ == kept(generated(pos@, mode)),
        final(list).scores == old(list).scores,
{
    list.clear();
    let ghost g = pos@;
    let ghost s0 = Seq::<Move>::empty();
    let ghost s1 = s0 + moves_of(g, mode, PieceType::King, 64);
    let ghost s2 = s1 + moves_of(g, mode, PieceType::Knight, 64);
    let ghost s3 = s2 + moves_of(g, mode, PieceType::Rook, 64);
    let ghost s4 = s3 + moves_of(g, mode, PieceType::Bishop, 64);
    let ghost s5 = s4 + moves_of(g, mode, PieceType::Queen, 64);
    assert(s1 =~= moves_of(g, mode, PieceType::King, 64));
    // King: one square, any direction, may take friendlies.
    push_kind(pos, PieceType::King, mode, 0, list, Ghost(s0));
    // Knight: unblockable sweep over a 3-square path.
    push_kind(pos, PieceType::Knight, mode, 0, list, Ghost(s1));
    // Rook / Bishop: ray move, detonate on the first blocker.
    push_kind(pos, PieceType::Rook, mode, 0, list, Ghost(s2));
    push_kind(pos, PieceType::Bishop, mode, 0, list, Ghost(s3));
    // Queen: forced sweeper, hard stop after the 2nd capture.
    push_kind(pos, PieceType::Queen, mode, 0, list, Ghost(s4));
    // Pawn: teleport to any empty square, never captures.
    if mode != GenMode::Captures {
        let pawns: u64 = pos.bb_of(pos.side, PieceType::Pawn);
        if pawns != 0 {
            let targets: u64 = match mode {
                GenMode::All => pos.empty_squares(),
                _ => teleport_targets(pos, pos.side),
            };
            proof {
                assert forall|t: int| #[trigger]
                    bits::bit(targets, t) <==> geom::valid(t) && !rules::occupied(pos@, t) && (mode
                        == GenMode::Search ==> teleport_target(pos@, pos@.side, t)) by {}
            }
            push_kind(pos, PieceType::Pawn, mode, targets, list, Ghost(s5));
        } else {
            proof {
                bits::lemma_empty_board(pawns);
                assert forall|s: int| 0 <= s < 64 implies !#[trigger] rules::stands(
                    g,
                    (g.side, PieceType::Pawn),
                    s,
                ) by {
                    assert(!bits::bit(pawns, s));
                }
                lemma_moves_gap(g, mode, PieceType::Pawn, 0, 64);
                assert(s5 + moves_of(g, mode, PieceType::Pawn, 64) =~= s5);
            }
        }
    } else {
        proof {
            lemma_no_pawn_captures(g, 64);
            assert(s5 + moves_of(g, mode, PieceType::Pawn, 64) =~= s5);
        }
    }
}

pub fn generate_vec(pos: &Position, mode: GenMode) -> (v: Vec<Move>)
    requires
        pos.wf(),
    ensures
        v@ == kept(generated(pos@, mode)),
{
    let mut l = MoveList::new();
    generate(pos, mode, &mut l);
    l.to_vec()
}

// ---------------------------------------------------------------------------
// Exact capture effects
// ---------------------------------------------------------------------------

/// What `mv` would destroy, without playing it: `(captured_mask, mover_dies)`.
/// The captured mask excludes the mover itself.
///
/// Standard SEE is meaningless in this variant because there is no recapture
/// sequence; the true swing of any move is one mask intersection away, which is
/// strictly better information than a real engine has at ordering time.
pub fn capture_effects(pos: &Position, mv: Move) -> (r: (Bitboard, bool))
    requires
        pos.wf(),
    ensures
        forall|s: int| #[trigger]
            bits::bit(r.0, s) <==> rules::hits(pos@, mv.src(), mv.dst(), s),
        r.1 == rules::dies(pos@, mv.src(), mv.dst()),
{
    let from: usize = mv.from();
    let to: usize = mv.to();
    let occ: u64 = pos.occ;
    let p: usize = match pos.piece_at(from) {
        Some(p) => p,
        None => {
            return (0, false);
        },
    };
    match piece_type_of(p) {
        PieceType::Pawn => (0, false),
        PieceType::Knight => (knight_path_mask(from, to) & occ, false),
        PieceType::Rook | PieceType::Bishop => {
            if in_board(occ, to) {
                (blast_mask(to) & occ & !bb(from), true)
            } else {
                (0, false)
            }
        },
        PieceType::Queen => ((between_mask(from, to) | bb(to)) & occ, false),
        PieceType::King => (bb(to) & occ, false),
    }
}

/// The move destroys something.
pub fn is_capture(pos: &Position, mv: Move) -> (b: bool)
    requires
        pos.wf(),
    ensures
        b == (captures(pos@, mv.src(), mv.dst()) || rules::dies(pos@, mv.src(), mv.dst())),
{
    let (cap, died) = capture_effects(pos, mv);
    proof {
        bits::lemma_empty_board(cap);
        if cap != 0 {
            let s = choose|s: int| #[trigger] bits::bit(cap, s);
            assert(rules::hits(pos@, mv.src(), mv.dst(), s));
        } else if captures(pos@, mv.src(), mv.dst()) {
            let s = choose|s: int| #[trigger] rules::hits(pos@, mv.src(), mv.dst(), s);
            assert(bits::bit(cap, s));
        }
    }
    cap != 0 || died
}

} // verus!
