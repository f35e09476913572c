//! Training-sample format.
//!
//! One record is a fixed 32 bytes: the position, the search score that produced
//! it, and the eventual game result. Fixed-width so a trainer can read a whole shard in
//! one call and so shards concatenate with `cat`.
//!
//! Layout (little-endian):
//!
//! | Offset | Size | Field                                                   |
//! |--------|------|---------------------------------------------------------|
//! | 0      | 8    | occupancy bitboard                                      |
//! | 8      | 16   | 4 bits per occupied square, ascending; piece index 0..11 |
//! | 24     | 1    | side to move (0 = white)                                |
//! | 25     | 1    | ply                                                     |
//! | 26     | 2    | search score, centipawns, side-to-move relative          |
//! | 28     | 1    | game result from White's view: +1 / 0 / -1              |
//! | 29     | 1    | flags: bit 0 = best move was quiet                       |
//! | 30     | 2    | reserved                                                |

use vstd::prelude::*;
use crate::bits;
use crate::bits::Bitboard;
use crate::bytes;
use crate::bytes::{byte_at, read_u64};
use crate::geom;
use crate::position::{GameResult, Position};
use crate::rules;
use crate::rules::Game;
use crate::types;
use crate::types::{Color, Man};

verus! {

broadcast use {
    crate::bits::group_bits,
    crate::types::lemma_man_of_code,
    crate::types::lemma_man_code_of,
};

pub const RECORD_SIZE: usize = 32;

pub const FLAG_QUIET: u8 = 1;

#[derive(Clone, Copy, Debug, PartialEq, Eq)]
pub struct Sample {
    pub occ: Bitboard,
    pub nibbles: [u8; 16],
    pub side: u8,
    pub ply: u8,
    pub score: i16,
    pub result: i8,
    pub flags: u8,
}

/// Half-byte `i`, the low half of a byte first.
pub open spec fn nibble(b: Seq<u8>, i: int) -> int {
    if i % 2 == 0 {
        b[i / 2] as int % 16
    } else {
        b[i / 2] as int / 16
    }
}

/// How many members of `occ` lie below `s`.
pub open spec fn place(occ: u64, s: int) -> int {
    bits::count_below(|t: int| bits::bit(occ, t), s as nat)
}

pub open spec fn clamped(x: int, lo: int, hi: int) -> int {
    if x < lo {
        lo
    } else if x > hi {
        hi
    } else {
        x
    }
}

impl Sample {
    /// At most 32 pieces, and every half-byte in use names one.
    pub open spec fn wf(self) -> bool {
        &&& bits::popcount(self.occ) <= 32
        &&& forall|i: int|
            0 <= i < bits::popcount(self.occ) ==> #[trigger] nibble(self.nibbles@, i) < 12
    }

    /// What the record says stands on `s`.
    pub open spec fn man_on(self, s: int) -> Option<Man> {
        if bits::bit(self.occ, s) {
            Some(types::man_of(nibble(self.nibbles@, place(self.occ, s))))
        } else {
            None
        }
    }

    /// The game that the record describes.
    pub open spec fn game(self) -> Game {
        Game {
            board: Seq::new(64, |s: int| self.man_on(s)),
            side: if self.side == 0 {
                Color::White
            } else {
                Color::Black
            },
            ply: self.ply as int,
        }
    }

    /// The record of a game with a score, before its result is known.
    pub open spec fn records(self, g: Game, score: int, quiet: bool) -> bool {
        &&& forall|s: int| #[trigger] bits::bit(self.occ, s) <==> rules::occupied(g, s)
        &&& forall|s: int|
            rules::occupied(g, s) ==> g.board[s] == Some(
                types::man_of(nibble(self.nibbles@, #[trigger] place(self.occ, s))),
            ) && nibble(self.nibbles@, place(self.occ, s)) < 12
        &&& forall|i: int|
            bits::popcount(self.occ) <= i < 32 ==> #[trigger] nibble(self.nibbles@, i) == 0
        &&& self.side == g.side.code()
        &&& self.ply == (if g.ply < 255 {
            g.ply
        } else {
            255
        })
        &&& self.score == clamped(score, -30_000, 30_000)
        &&& self.result == 0
        &&& self.flags == (if quiet {
            1int
        } else {
            0int
        })
    }

    pub fn from_position(pos: &Position, score: i32, quiet: bool) -> (r: Sample)
        requires
            pos.wf(),
            bits::popcount(pos.occ) <= 32,
        ensures
            r.occ == pos.occ,
            r.records(pos@, score as int, quiet),
    {
        let mut nibbles: [u8; 16] = [0;16];
        let ghost occ = pos.occ;
        let ghost p = |t: int| bits::bit(occ, t);
        let mut it = types::bits(pos.occ);
        let mut i: usize = 0;
        let ghost mut seen: int = 0;
        proof {
            assert forall|k: int| 0 <= k < 32 implies #[trigger] nibble(nibbles@, k) == 0 by {
                assert(nibbles@[k / 2] == 0);
            }
        }
        loop
            invariant
                pos.wf(),
                occ == pos.occ,
                p == (|t: int| bits::bit(occ, t)),
                bits::popcount(occ) <= 32,
                0 <= seen <= 64,
                i == place(occ, seen),
                i <= 32,
                forall|x: int| #[trigger] bits::bit(it.0, x) <==> bits::bit(occ, x) && x >= seen,
                forall|k: int| i <= k < 32 ==> #[trigger] nibble(nibbles@, k) == 0,
                forall|s: int|
                    bits::bit(occ, s) && s < seen ==> pos@.board[s] == Some(
                        types::man_of(nibble(nibbles@, #[trigger] place(occ, s))),
                    ) && nibble(nibbles@, place(occ, s)) < 12 && place(occ, s) < i,
            ensures
                it.0 == 0,
            decreases it.0,
        {
            let ghost rest = it.0;
            match it.next() {
                None => break,
                Some(s) => {
                    proof {
                        assert(bits::bit(rest, s as int));
                        assert(bits::bit(occ, s as int));
                        assert forall|t: int| seen <= t < s implies !#[trigger] p(t) by {
                            if p(t) {
                                assert(bits::bit(rest, t));
                            }
                        }
                        bits::lemma_count_gap(p, seen as nat, s as nat);
                        assert(i == place(occ, s as int));
                        assert(p(s as int));
                        lemma_place_total(occ, s as int);
                    }
                    let q: u8 = match pos.piece_at(s) {
                        Some(q) => q as u8,
                        None => 0,
                    };
                    let ghost before = nibbles@;
                    let at: usize = i / 2;
                    let b: u8 = nibbles[at];
                    proof {
                        assert(nibble(before, i as int) == 0);
                        assert(i % 2 == 0 ==> nibble(before, i + 1) == 0);
                        assert(q < 16 && b < 16 ==> (b | (q << 4u8)) == b + 16 * q) by (bit_vector);
                        assert((0u8 | q) == q) by (bit_vector);
                    }
                    if i % 2 == 0 {
                        nibbles[at] = b | q;
                    } else {
                        nibbles[at] = b | (q << 4);
                    }
                    proof {
                        assert forall|k: int| 0 <= k < 32 && k != i implies #[trigger] nibble(
                            nibbles@,
                            k,
                        ) == nibble(before, k) by {}
                        assert(nibble(nibbles@, i as int) == q);
                        assert forall|x: int| bits::bit(occ, x) && x < s + 1 implies pos@.board[x]
                            == Some(
                            types::man_of(nibble(nibbles@, #[trigger] place(occ, x))),
                        ) && nibble(nibbles@, place(occ, x)) < 12 && place(occ, x) < i + 1 by {
                            if x >= seen && x < s {
                                assert(!p(x));
                            }
                            if x < seen {
                                bits::lemma_count_bounds(p, x as nat);
                            }
                        }
                    }
                    i += 1;
                    proof {
                        seen = s + 1;
                    }
                },
            }
        }
        proof {
            assert forall|t: int| seen <= t < 64 implies !#[trigger] p(t) by {
                if p(t) {
                    assert(bits::bit(it.0, t));
                }
            }
            bits::lemma_count_gap(p, seen as nat, 64);
            assert forall|s: int| #[trigger] bits::bit(occ, s) <==> rules::occupied(pos@, s) by {
                if geom::valid(s) {
                    assert(bits::bit(pos.occ, s) <==> pos@.board[s] is Some);
                }
            }
            assert forall|s: int| rules::occupied(pos@, s) implies pos@.board[s] == Some(
                types::man_of(nibble(nibbles@, #[trigger] place(occ, s))),
            ) && nibble(nibbles@, place(occ, s)) < 12 by {
                assert(bits::bit(occ, s));
                if s >= seen {
                    assert(!p(s));
                }
            }
        }
        Sample {
            occ: pos.occ,
            nibbles,
            side: pos.side.index() as u8,
            ply: if pos.ply < 255 {
                pos.ply as u8
            } else {
                255
            },
            score: if score < -30_000 {
                -30_000
            } else if score > 30_000 {
                30_000
            } else {
                score as i16
            },
            result: 0,
            flags: if quiet {
                FLAG_QUIET
            } else {
                0
            },
        }
    }
}

/// A member's place is below the number of members.
proof fn lemma_place_total(occ: u64, s: int)
    requires
        bits::bit(occ, s),
    ensures
        0 <= place(occ, s) < bits::popcount(occ),
{
    let p = |t: int| bits::bit(occ, t);
    bits::lemma_count_bounds(p, s as nat);
    lemma_count_grows(p, (s + 1) as nat, 64);
    assert(p(s));
}

proof fn lemma_count_grows(p: spec_fn(int) -> bool, lo: nat, hi: nat)
    requires
        lo <= hi,
    ensures
        bits::count_below(p, lo) <= bits::count_below(p, hi),
    decreases hi,
{
    if lo < hi {
        lemma_count_grows(p, lo, (hi - 1) as nat);
    }
}

/// A result from White's point of view: +1, 0 or -1.
pub open spec fn result_sign(r: GameResult) -> int {
    match r {
        GameResult::Draw => 0,
        GameResult::Win(Color::White) => 1,
        GameResult::Win(Color::Black) => -1,
    }
}

/// The 32 bytes of a record.
pub open spec fn encoded(s: Sample) -> Seq<u8> {
    Seq::new(
        32,
        |i: int|
            if i < 8 {
                bytes::byte_of(s.occ, i)
            } else if i < 24 {
                s.nibbles@[i - 8]
            } else if i == 24 {
                s.side
            } else if i == 25 {
                s.ply
            } else if i == 26 {
                bytes::byte_of((s.score as u16) as u64, 0)
            } else if i == 27 {
                bytes::byte_of((s.score as u16) as u64, 1)
            } else if i == 28 {
                s.result as u8
            } else if i == 29 {
                s.flags
            } else {
                0
            },
    )
}

/// `s` is what the 32 bytes at the start of `b` stand for.
pub open spec fn decodes(b: Seq<u8>, s: Sample) -> bool {
    &&& s.occ == bytes::u64_from(b, 0)
    &&& s.nibbles@ == b.subrange(8, 24)
    &&& s.side == b[24]
    &&& s.ply == b[25]
    &&& s.score == ((b[26] as u16) | ((b[27] as u16) << 8u16)) as i16
    &&& s.result == b[28] as i8
    &&& s.flags == b[29]
}

impl Sample {
    pub fn set_result(&mut self, r: GameResult)
        ensures
            *final(self) == (Sample { result: result_sign(r) as i8, ..*old(self) }),
    {
        self.result = match r {
            GameResult::Draw => 0,
            GameResult::Win(Color::White) => 1,
            GameResult::Win(Color::Black) => -1,
        };
    }

    pub fn to_position(&self) -> (r: Position)
        requires
            self.wf(),
        ensures
            r.wf(),
            r.keyed(),
            r@ == self.game(),
    {
        let ghost occ = self.occ;
        let ghost p = |t: int| bits::bit(occ, t);
        let mut pos = Position::empty();
        let mut it = types::bits(self.occ);
        let mut i: usize = 0;
        let ghost mut seen: int = 0;
        loop
            invariant
                self.wf(),
                occ == self.occ,
                p == (|t: int| bits::bit(occ, t)),
                0 <= seen <= 64,
                i == place(occ, seen),
                i <= 32,
                forall|x: int| #[trigger] bits::bit(it.0, x) <==> bits::bit(occ, x) && x >= seen,
                pos.wf(),
                pos@.board.len() == 64,
                forall|s: int|
                    0 <= s < 64 ==> #[trigger] pos@.board[s] == if s < seen {
                        self.man_on(s)
                    } else {
                        None
                    },
            ensures
                it.0 == 0,
            decreases it.0,
        {
            let ghost rest = it.0;
            match it.next() {
                None => break,
                Some(s) => {
                    proof {
                        assert(bits::bit(rest, s as int));
                        assert(bits::bit(occ, s as int));
                        assert forall|t: int| seen <= t < s implies !#[trigger] p(t) by {
                            if p(t) {
                                assert(bits::bit(rest, t));
                            }
                        }
                        bits::lemma_count_gap(p, seen as nat, s as nat);
                        assert(p(s as int));
                        lemma_place_total(occ, s as int);
                        assert(nibble(self.nibbles@, i as int) < 12);
                    }
                    let b: u8 = self.nibbles[i / 2];
                    proof {
                        assert(b & 0x0f == b % 16) by (bit_vector);
                        assert(b >> 4u8 == b / 16) by (bit_vector);
                    }
                    let q: u8 = if i % 2 == 0 {
                        b & 0x0f
                    } else {
                        b >> 4
                    };
                    pos.put_piece(q as usize, s);
                    proof {
                        assert forall|x: int| 0 <= x < 64 implies #[trigger] pos@.board[x] == if x
                            < s + 1 {
                            self.man_on(x)
                        } else {
                            None
                        } by {
                            if seen <= x < s {
                                assert(!p(x));
                            }
                        }
                    }
                    i += 1;
                    proof {
                        seen = s + 1;
                    }
                },
            }
        }
        proof {
            assert forall|x: int| 0 <= x < 64 implies #[trigger] pos@.board[x] == self.man_on(x) by {
                if x >= seen && bits::bit(occ, x) {
                    assert(bits::bit(it.0, x));
                }
            }
            assert(pos@.board =~= self.game().board);
        }
        let ghost board = pos@.board;
        pos.side = Color::from_index(self.side as usize);
        pos.ply = self.ply as u16;
        proof {
            pos.lemma_shows(board);
        }
        pos.recompute_key();
        pos
    }

    pub fn encode(&self) -> (b: [u8; 32])
        ensures
            b@ == encoded(*self),
    {
        let mut b: [u8; 32] = [0;32];
        let mut k: usize = 0;
        while k < 8
            invariant
                k <= 8,
                forall|i: int| 0 <= i < k ==> #[trigger] b@[i] == bytes::byte_of(self.occ, i),
                forall|i: int| k <= i < 32 ==> #[trigger] b@[i] == 0,
            decreases 8 - k,
        {
            b[k] = byte_at(self.occ, k);
            k += 1;
        }
        let mut j: usize = 0;
        while j < 16
            invariant
                j <= 16,
                forall|i: int| 0 <= i < 8 ==> #[trigger] b@[i] == bytes::byte_of(self.occ, i),
                forall|i: int| 8 <= i < 8 + j ==> #[trigger] b@[i] == self.nibbles@[i - 8],
                forall|i: int| 8 + j <= i < 32 ==> #[trigger] b@[i] == 0,
            decreases 16 - j,
        {
            b[8 + j] = self.nibbles[j];
            j += 1;
        }
        b[24] = self.side;
        b[25] = self.ply;
        let score: u64 = (self.score as u16) as u64;
        b[26] = byte_at(score, 0);
        b[27] = byte_at(score, 1);
        b[28] = self.result as u8;
        b[29] = self.flags;
        assert(b@ =~= encoded(*self));
        b
    }

    /// The record at the start of `b`; `None` when that is shorter than a record.
    pub fn decode(b: &[u8]) -> (r: Option<Sample>)
        ensures
            r is None <==> b@.len() < 32,
            r matches Some(s) ==> decodes(b@, s),
    {
        if b.len() < RECORD_SIZE {
            return None;
        }
        let mut nibbles: [u8; 16] = [0;16];
        let mut j: usize = 0;
        while j < 16
            invariant
                b@.len() >= 32,
                j <= 16,
                forall|i: int| 0 <= i < j ==> #[trigger] nibbles@[i] == b@[i + 8],
            decreases 16 - j,
        {
            nibbles[j] = b[8 + j];
            j += 1;
        }
        assert(nibbles@ =~= b@.subrange(8, 24));
        Some(
            Sample {
                occ: read_u64(b, 0),
                nibbles,
                side: b[24],
                ply: b[25],
                score: ((b[26] as u16) | ((b[27] as u16) << 8u16)) as i16,
                result: b[28] as i8,
                flags: b[29],
            },
        )
    }

    pub fn is_quiet(&self) -> (b: bool)
        ensures
            b == (self.flags & 1 != 0),
    {
        self.flags & FLAG_QUIET != 0
    }
}

/// The bytes of a record stand for it.
pub proof fn lemma_decodes(s: Sample)
    ensures
        decodes(encoded(s), s),
{
    let b = encoded(s);
    assert forall|k: int| 0 <= k < 8 implies b[0 + k] == #[trigger] bytes::byte_of(s.occ, k) by {}
    bytes::lemma_u64_bytes(s.occ, b, 0);
    assert(b.subrange(8, 24) =~= s.nibbles@);
    let x = s.score;
    let u = (x as u16) as u64;
    assert(bytes::byte_of(u, 0) == ((u >> 0u64) & 0xff) as u8);
    assert(bytes::byte_of(u, 1) == ((u >> 8u64) & 0xff) as u8);
    assert((((((((x as u16) as u64) >> 0u64) & 0xff) as u8) as u16) | (((((((x as u16) as u64)
        >> 8u64) & 0xff) as u8) as u16) << 8u16)) as i16 == x) by (bit_vector);
    let r = s.result;
    assert((r as u8) as i8 == r) by (bit_vector);
}

/// Where a record keeps what: the occupied squares as a number of eight bytes, lowest
/// first; then two pieces to a byte, the lower half first; the side to move; the ply; the
/// score as a number of two bytes, lowest first, in two's complement; the result; the
/// flags; and two bytes of nothing.
pub proof fn law_record_layout(s: Sample)
    ensures
        encoded(s).len() == 32,
        s.occ == encoded(s)[0] + 0x100 * encoded(s)[1] + 0x1_0000 * encoded(s)[2] + 0x100_0000
            * encoded(s)[3] + 0x1_0000_0000 * encoded(s)[4] + 0x100_0000_0000 * encoded(s)[5]
            + 0x1_0000_0000_0000 * encoded(s)[6] + 0x100_0000_0000_0000 * encoded(s)[7],
        forall|i: int|
            0 <= i < 32 ==> #[trigger] nibble(s.nibbles@, i) == (if i % 2 == 0 {
                encoded(s)[8 + i / 2] % 16
            } else {
                encoded(s)[8 + i / 2] / 16
            }),
        encoded(s)[24] == s.side,
        encoded(s)[25] == s.ply,
        encoded(s)[26] + 0x100 * encoded(s)[27] == (if s.score < 0 {
            s.score + 0x1_0000
        } else {
            s.score as int
        }),
        encoded(s)[28] == (if s.result < 0 {
            s.result + 0x100
        } else {
            s.result as int
        }),
        encoded(s)[29] == s.flags,
        encoded(s)[30] == 0,
        encoded(s)[31] == 0,
{
    let b = encoded(s);
    bytes::lemma_value(s.occ);
    let x = s.score;
    let u = (x as u16) as u64;
    assert((x < 0 ==> (x as u16) == x + 0x1_0000) && (x >= 0 ==> (x as u16) == x)) by (bit_vector);
    bytes::lemma_value(u);
    assert(bytes::byte_of(u, 0) + 0x100 * bytes::byte_of(u, 1) == u) by {
        assert(((u >> 0u64) & 0xff) as u8 + 0x100 * (((u >> 8u64) & 0xff) as u8) == u)
            by (bit_vector)
            requires
                u < 0x1_0000,
        ;
    }
    let r = s.result;
    assert((r < 0 ==> (r as u8) == r + 0x100) && (r >= 0 ==> (r as u8) == r)) by (bit_vector);
}

/// A record written down and read again is the same record.
pub proof fn law_records_round_trip(s: Sample, back: Sample)
    requires
        decodes(encoded(s), back),
    ensures
        back == s,
{
    lemma_decodes(s);
    assert(back.nibbles =~= s.nibbles);
}

/// A position recorded and rebuilt is the same position, as far as a record counts
/// plies.
pub proof fn law_a_record_restores_its_position(s: Sample, g: Game, score: int, quiet: bool)
    requires
        g.board.len() == 64,
        0 <= g.ply <= 255,
        s.records(g, score, quiet),
        bits::popcount(s.occ) <= 32,
    ensures
        s.game() == g,
        s.wf(),
{
    assert forall|x: int| 0 <= x < 64 implies #[trigger] s.game().board[x] == g.board[x] by {
        if rules::occupied(g, x) {
            assert(bits::bit(s.occ, x));
            assert(g.board[x] == Some(types::man_of(nibble(s.nibbles@, place(s.occ, x)))));
        } else {
            assert(!bits::bit(s.occ, x));
        }
    }
    assert(s.game().board =~= g.board);
    assert forall|i: int| 0 <= i < bits::popcount(s.occ) implies #[trigger] nibble(
        s.nibbles@,
        i,
    ) < 12 by {
        let x = lemma_place_found(s.occ, i, 64);
        assert(rules::occupied(g, x));
        assert(nibble(s.nibbles@, place(s.occ, x)) < 12);
    }
}

/// A position, its score and its quietness fix their record.
pub proof fn law_records_are_unique(a: Sample, b: Sample, g: Game, score: int, quiet: bool)
    requires
        a.records(g, score, quiet),
        b.records(g, score, quiet),
    ensures
        a == b,
{
    assert forall|s: int| bits::bit(a.occ, s) == bits::bit(b.occ, s) by {
        assert(bits::bit(a.occ, s) <==> rules::occupied(g, s));
        assert(bits::bit(b.occ, s) <==> rules::occupied(g, s));
    }
    bits::lemma_board_ext(a.occ, b.occ);
    assert forall|i: int| 0 <= i < 32 implies #[trigger] nibble(a.nibbles@, i) == nibble(
        b.nibbles@,
        i,
    ) by {
        if i < bits::popcount(a.occ) {
            let x = lemma_place_found(a.occ, i, 64);
            assert(bits::bit(a.occ, x) <==> rules::occupied(g, x));
            assert(nibble(a.nibbles@, place(a.occ, x)) < 12);
            assert(nibble(b.nibbles@, place(b.occ, x)) < 12);
        }
    }
    assert forall|k: int| 0 <= k < 16 implies #[trigger] a.nibbles@[k] == b.nibbles@[k] by {
        assert(nibble(a.nibbles@, 2 * k) == nibble(b.nibbles@, 2 * k));
        assert(nibble(a.nibbles@, 2 * k + 1) == nibble(b.nibbles@, 2 * k + 1));
    }
    assert(a.nibbles =~= b.nibbles);
}

/// Every number below the number of members is the place of a member.
proof fn lemma_place_found(occ: u64, i: int, n: nat) -> (x: int)
    requires
        0 <= i < bits::count_below(|t: int| bits::bit(occ, t), n),
    ensures
        bits::bit(occ, x),
        place(occ, x) == i,
    decreases n,
{
    let p = |t: int| bits::bit(occ, t);
    if i < bits::count_below(p, (n - 1) as nat) {
        lemma_place_found(occ, i, (n - 1) as nat)
    } else {
        assert(p(n - 1));
        n - 1
    }
}

} // verus!
