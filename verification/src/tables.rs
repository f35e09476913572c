//! Blast masks, rays, knight paths, sliding attacks and hash keys.
//!
//! | Table                  | Size          | Purpose                              |
//! |------------------------|---------------|--------------------------------------|
//! | 3x3 explosion masks    | 64 x u64      | rook/bishop detonation regions       |
//! | knight path masks      | 64 x 8 x u64  | both intermediates + destination     |
//! | ray tables             | 8 x 64 x u64  | sliding attacks without blockers     |
//! | between masks          | 64 x 64 x u64 | queen sweep + ray-block detection    |
//! | zobrist keys           | 12 x 64 + 257 | transposition table                  |
//!
//! Each entry is also a function of its own, and the engine calls those: a mask is
//! a handful of steps away, and a position then needs no table to be at hand.

use vstd::prelude::*;
use crate::bits;
use crate::bits::Bitboard;
use crate::geom;
use crate::types::{PieceType, bb, file_of, in_board, rank_of, sq};

verus! {

broadcast use crate::bits::group_bits;

// ---------------------------------------------------------------------------
// Directions
// ---------------------------------------------------------------------------

pub const DIR_N: usize = 0;
pub const DIR_NE: usize = 1;
pub const DIR_E: usize = 2;
pub const DIR_SE: usize = 3;
pub const DIR_S: usize = 4;
pub const DIR_SW: usize = 5;
pub const DIR_W: usize = 6;
pub const DIR_NW: usize = 7;

/// `(d_rank, d_file)` for each of the 8 ray directions, indexed by `DIR_*`.
pub const DELTAS: [(i32, i32); 8] = [
    (1, 0),
    (1, 1),
    (0, 1),
    (-1, 1),
    (-1, 0),
    (-1, -1),
    (0, -1),
    (1, -1),
];

pub const ROOK_DIRS: [usize; 4] = [DIR_N, DIR_E, DIR_S, DIR_W];

pub const BISHOP_DIRS: [usize; 4] = [DIR_NE, DIR_SE, DIR_SW, DIR_NW];

pub const QUEEN_DIRS: [usize; 8] = [
    DIR_N,
    DIR_NE,
    DIR_E,
    DIR_SE,
    DIR_S,
    DIR_SW,
    DIR_W,
    DIR_NW,
];

/// `(dest_dr, dest_dc, i1_dr, i1_dc, i2_dr, i2_dc)` for each of the 8 leaps: two
/// steps along the major axis, then one perpendicular.
pub const KNIGHT_PATHS: [(i32, i32, i32, i32, i32, i32); 8] = [
    (2, 1, 1, 0, 2, 0),
    (2, -1, 1, 0, 2, 0),
    (-2, 1, -1, 0, -2, 0),
    (-2, -1, -1, 0, -2, 0),
    (1, 2, 0, 1, 0, 2),
    (-1, 2, 0, 1, 0, 2),
    (1, -2, 0, -1, 0, -2),
    (-1, -2, 0, -1, 0, -2),
];

fn on_board(r: i32, f: i32) -> (b: bool)
    ensures
        b == geom::on_board(r as int, f as int),
{
    0 <= r && r < 8 && 0 <= f && f < 8
}

proof fn lemma_deltas(d: int)
    requires
        0 <= d < 8,
    ensures
        DELTAS@[d].0 == geom::step_r(d),
        DELTAS@[d].1 == geom::step_f(d),
{
}

// ---------------------------------------------------------------------------
// Sliding attacks
// ---------------------------------------------------------------------------

/// A slider that starts on `s` and moves in direction `d` over the occupied squares
/// `occ` can land on `t`.
pub open spec fn ray_reach(d: int, s: int, occ: Bitboard, t: int) -> bool {
    &&& geom::valid(t)
    &&& geom::dir(s, t) == d
    &&& forall|x: int| #[trigger] bits::bit(occ, x) ==> !geom::between(s, t, x)
}

/// Squares reachable along direction `d` from `s`, stopping *on* the first
/// occupied square (which is included — landing there is the detonating move).
pub fn ray_attacks(d: usize, s: usize, occ: Bitboard) -> (m: Bitboard)
    requires
        d < 8,
        s < 64,
    ensures
        forall|t: int| #[trigger] bits::bit(m, t) <==> ray_reach(d as int, s as int, occ, t),
{
    let (dr, df) = DELTAS[d];
    proof {
        lemma_deltas(d as int);
    }
    let mut r: i32 = rank_of(s) as i32 + dr;
    let mut f: i32 = file_of(s) as i32 + df;
    let mut mask: u64 = 0;
    let ghost mut k: int = 1;
    while on_board(r, f)
        invariant
            d < 8,
            s < 64,
            dr == geom::step_r(d as int),
            df == geom::step_f(d as int),
            1 <= k <= 8,
            r == s / 8 + k * dr,
            f == s % 8 + k * df,
            geom::on_board(r as int, f as int) <==> k <= geom::ray_len(d as int, s as int),
            k <= geom::ray_len(d as int, s as int) ==> geom::square(r as int, f as int)
                == geom::ray_square(d as int, s as int, k),
            forall|x: int|
                #![trigger bits::bit(occ, x)]
                geom::valid(x) && geom::dir(s as int, x) == d && geom::dist(s as int, x) < k
                    ==> !bits::bit(occ, x),
            forall|t: int| #[trigger]
                bits::bit(mask, t) <==> geom::valid(t) && geom::dir(s as int, t) == d && geom::dist(
                    s as int,
                    t,
                ) < k,
        decreases 8 - k,
    {
        let x: usize = sq(r as usize, f as usize);
        proof {
            geom::lemma_square(r as int, f as int);
            geom::lemma_ray_square(d as int, s as int, k);
        }
        let ghost before = mask;
        mask = mask | bb(x);
        proof {
            assert forall|t: int| #[trigger]
                bits::bit(mask, t) <==> geom::valid(t) && geom::dir(s as int, t) == d && geom::dist(
                    s as int,
                    t,
                ) < k + 1 by {
                assert(bits::bit(mask, t) <==> bits::bit(before, t) || t == x);
                if geom::valid(t) && geom::dir(s as int, t) == d && geom::dist(s as int, t) == k {
                    geom::lemma_on_ray(d as int, s as int, t);
                }
            }
        }
        if in_board(occ, x) {
            proof {
                assert forall|t: int| #[trigger]
                    bits::bit(mask, t) <==> ray_reach(d as int, s as int, occ, t) by {
                    if ray_reach(d as int, s as int, occ, t) && geom::dist(s as int, t) > k {
                        assert(geom::between(s as int, t, x as int));
                    }
                }
            }
            return mask;
        }
        r = r + dr;
        f = f + df;
        proof {
            assert((k + 1) * dr == k * dr + dr) by (nonlinear_arith);
            assert((k + 1) * df == k * df + df) by (nonlinear_arith);
            assert forall|y: int|
                #![trigger bits::bit(occ, y)]
                geom::valid(y) && geom::dir(s as int, y) == d && geom::dist(s as int, y) < k
                    + 1 implies !bits::bit(occ, y) by {
                if geom::dist(s as int, y) == k {
                    geom::lemma_on_ray(d as int, s as int, y);
                }
            }
            k = k + 1;
        }
    }
    proof {
        assert forall|t: int| #[trigger]
            bits::bit(mask, t) <==> ray_reach(d as int, s as int, occ, t) by {
            if geom::valid(t) && geom::dir(s as int, t) == d {
                geom::lemma_on_ray(d as int, s as int, t);
            }
        }
    }
    mask
}

/// A rook or bishop on `s`, blocked by the occupied squares `occ`, can land on `t`.
pub open spec fn reach(pt: PieceType, s: int, occ: Bitboard, t: int) -> bool {
    &&& geom::valid(t)
    &&& geom::slides(pt, s, t)
    &&& forall|x: int| #[trigger] bits::bit(occ, x) ==> !geom::between(s, t, x)
}

/// Union of the rays in four directions.
fn four_rays(dirs: &[usize; 4], s: usize, occ: Bitboard) -> (m: Bitboard)
    requires
        s < 64,
        forall|i: int| 0 <= i < 4 ==> #[trigger] dirs@[i] < 8,
    ensures
        forall|t: int| #[trigger]
            bits::bit(m, t) <==> ray_reach(dirs@[0] as int, s as int, occ, t) || ray_reach(
                dirs@[1] as int,
                s as int,
                occ,
                t,
            ) || ray_reach(dirs@[2] as int, s as int, occ, t) || ray_reach(
                dirs@[3] as int,
                s as int,
                occ,
                t,
            ),
{
    ray_attacks(dirs[0], s, occ) | ray_attacks(dirs[1], s, occ) | ray_attacks(dirs[2], s, occ)
        | ray_attacks(dirs[3], s, occ)
}

pub fn rook_attacks(s: usize, occ: Bitboard) -> (m: Bitboard)
    requires
        s < 64,
    ensures
        forall|t: int| #[trigger] bits::bit(m, t) <==> reach(PieceType::Rook, s as int, occ, t),
{
    four_rays(&ROOK_DIRS, s, occ)
}

pub fn bishop_attacks(s: usize, occ: Bitboard) -> (m: Bitboard)
    requires
        s < 64,
    ensures
        forall|t: int| #[trigger] bits::bit(m, t) <==> reach(PieceType::Bishop, s as int, occ, t),
{
    four_rays(&BISHOP_DIRS, s, occ)
}

/// Rook/bishop reach for the given piece type. Queens do *not* use this: their
/// sweep passes over what it captures.
pub fn slider_attacks(pt: PieceType, s: usize, occ: Bitboard) -> (m: Bitboard)
    requires
        s < 64,
    ensures
        forall|t: int| #[trigger] bits::bit(m, t) <==> reach(pt, s as int, occ, t),
{
    match pt {
        PieceType::Rook => rook_attacks(s, occ),
        PieceType::Bishop => bishop_attacks(s, occ),
        _ => 0,
    }
}

// ---------------------------------------------------------------------------
// Masks
// ---------------------------------------------------------------------------

/// The 3x3 region centred on the square, clipped at the edges.
pub fn blast_mask(s: usize) -> (m: Bitboard)
    requires
        s < 64,
    ensures
        forall|t: int| #[trigger] bits::bit(m, t) <==> geom::valid(t) && geom::blast(s as int, t),
{
    let r: i32 = rank_of(s) as i32;
    let f: i32 = file_of(s) as i32;
    let mut mask: u64 = 0;
    let mut dr: i32 = -1;
    while dr <= 1
        invariant
            s < 64,
            r == s / 8,
            f == s % 8,
            -1 <= dr <= 2,
            forall|t: int| #[trigger]
                bits::bit(mask, t) <==> geom::valid(t) && geom::blast(s as int, t) && geom::dr(
                    s as int,
                    t,
                ) < dr,
        decreases 2 - dr,
    {
        let mut df: i32 = -1;
        while df <= 1
            invariant
                s < 64,
                r == s / 8,
                f == s % 8,
                -1 <= dr <= 1,
                -1 <= df <= 2,
                forall|t: int| #[trigger]
                    bits::bit(mask, t) <==> geom::valid(t) && geom::blast(s as int, t) && (geom::dr(
                        s as int,
                        t,
                    ) < dr || (geom::dr(s as int, t) == dr && geom::df(s as int, t) < df)),
            decreases 2 - df,
        {
            if on_board(r + dr, f + df) {
                proof {
                    geom::lemma_square(r + dr, f + df);
                }
                mask = mask | bb(sq((r + dr) as usize, (f + df) as usize));
            }
            df += 1;
        }
        dr += 1;
    }
    mask
}

/// The up-to-8 neighbours of a square, excluding the square itself.
pub fn ring_mask(s: usize) -> (m: Bitboard)
    requires
        s < 64,
    ensures
        forall|t: int| #[trigger]
            bits::bit(m, t) <==> geom::valid(t) && geom::adjacent(s as int, t),
{
    blast_mask(s) & !bb(s)
}

/// All squares in direction `d` from `s`, exclusive of `s`.
pub fn ray_mask(d: usize, s: usize) -> (m: Bitboard)
    requires
        d < 8,
        s < 64,
    ensures
        forall|t: int| #[trigger]
            bits::bit(m, t) <==> geom::valid(t) && geom::dir(s as int, t) == d,
{
    ray_attacks(d, s, 0)
}

/// Direction index from `a` to `b`, or 8 if not aligned.
pub fn direction(a: usize, b: usize) -> (d: usize)
    requires
        a < 64,
        b < 64,
    ensures
        d == geom::dir(a as int, b as int),
        d <= 8,
{
    let dr: i32 = rank_of(b) as i32 - rank_of(a) as i32;
    let df: i32 = file_of(b) as i32 - file_of(a) as i32;
    if dr > 0 {
        if df == 0 {
            DIR_N
        } else if df == dr {
            DIR_NE
        } else if df == -dr {
            DIR_NW
        } else {
            8
        }
    } else if dr == 0 {
        if df > 0 {
            DIR_E
        } else if df < 0 {
            DIR_W
        } else {
            8
        }
    } else {
        if df == 0 {
            DIR_S
        } else if df == -dr {
            DIR_SE
        } else if df == dr {
            DIR_SW
        } else {
            8
        }
    }
}

/// Squares strictly between two aligned squares; 0 if not aligned.
pub fn between_mask(a: usize, b: usize) -> (m: Bitboard)
    requires
        a < 64,
        b < 64,
    ensures
        forall|t: int| #[trigger]
            bits::bit(m, t) <==> geom::valid(t) && geom::between(a as int, b as int, t),
{
    let d: usize = direction(a, b);
    if d == 8 {
        return 0;
    }
    let m: u64 = ray_attacks(d, a, bb(b)) & !bb(b);
    proof {
        assert forall|t: int| #[trigger]
            bits::bit(m, t) <==> geom::valid(t) && geom::between(a as int, b as int, t) by {
            assert(bits::bit(m, t) <==> ray_reach(d as int, a as int, 1u64 << b, t) && t != b);
            if geom::valid(t) && geom::dir(a as int, t) == d {
                geom::lemma_on_ray(d as int, a as int, t);
                geom::lemma_on_ray(d as int, a as int, b as int);
                assert(bits::bit(1u64 << b, b as int));
            }
        }
    }
    m
}

/// The three-square path of the knight's leap from `a` to `b`; 0 if it is none.
pub fn knight_path_mask(a: usize, b: usize) -> (m: Bitboard)
    requires
        a < 64,
        b < 64,
    ensures
        forall|t: int| #[trigger]
            bits::bit(m, t) <==> geom::valid(t) && geom::knight_path(a as int, b as int, t),
{
    let (ra, fa) = (rank_of(a), file_of(a));
    let (rb, fb) = (rank_of(b), file_of(b));
    let dr: i32 = rb as i32 - ra as i32;
    let df: i32 = fb as i32 - fa as i32;
    if (dr == 2 || dr == -2) && (df == 1 || df == -1) {
        let mid: usize = if dr == 2 {
            ra + 1
        } else {
            ra - 1
        };
        proof {
            geom::lemma_square(mid as int, fa as int);
            geom::lemma_square(rb as int, fa as int);
        }
        bb(b) | bb(sq(mid, fa)) | bb(sq(rb, fa))
    } else if (dr == 1 || dr == -1) && (df == 2 || df == -2) {
        let mid: usize = if df == 2 {
            fa + 1
        } else {
            fa - 1
        };
        proof {
            geom::lemma_square(ra as int, mid as int);
            geom::lemma_square(ra as int, fb as int);
        }
        bb(b) | bb(sq(ra, mid)) | bb(sq(ra, fb))
    } else {
        0
    }
}

// ---------------------------------------------------------------------------
// Knight leaps
// ---------------------------------------------------------------------------

/// Where the knight's move of kind `k` from `s` lands; 64 when that is off the board.
pub open spec fn knight_landing(s: int, k: int) -> int {
    let r = geom::rank(s) + KNIGHT_PATHS@[k].0;
    let f = geom::file(s) + KNIGHT_PATHS@[k].1;
    if geom::on_board(r, f) {
        geom::square(r, f)
    } else {
        64
    }
}

/// Every leap is the landing of one of the eight kinds, and of no other.
pub proof fn lemma_knight_landing(s: int, k: int)
    requires
        geom::valid(s),
        0 <= k < 8,
        knight_landing(s, k) != 64,
    ensures
        geom::valid(knight_landing(s, k)),
        geom::leap(s, knight_landing(s, k)),
        forall|j: int|
            0 <= j < 8 && j != k ==> #[trigger] knight_landing(s, j) != knight_landing(s, k),
{
    geom::lemma_square(
        geom::rank(s) + KNIGHT_PATHS@[k].0,
        geom::file(s) + KNIGHT_PATHS@[k].1,
    );
    assert forall|j: int| 0 <= j < 8 && j != k implies #[trigger] knight_landing(s, j)
        != knight_landing(s, k) by {
        if knight_landing(s, j) != 64 {
            geom::lemma_square(
                geom::rank(s) + KNIGHT_PATHS@[j].0,
                geom::file(s) + KNIGHT_PATHS@[j].1,
            );
        }
    }
}

/// The kind of the leap from `s` to `t`.
pub open spec fn knight_kind(s: int, t: int) -> int {
    let r = geom::dr(s, t);
    let f = geom::df(s, t);
    if r == 2 && f == 1 {
        0
    } else if r == 2 {
        1
    } else if r == -2 && f == 1 {
        2
    } else if r == -2 {
        3
    } else if r == 1 && f == 2 {
        4
    } else if r == -1 && f == 2 {
        5
    } else if r == 1 {
        6
    } else {
        7
    }
}

pub proof fn lemma_knight_kind(s: int, t: int)
    requires
        geom::valid(s),
        geom::valid(t),
        geom::leap(s, t),
    ensures
        0 <= knight_kind(s, t) < 8,
        knight_landing(s, knight_kind(s, t)) == t,
{
}

/// The landing of the knight's move of kind `k` from `s`, 64 when off the board.
pub fn knight_dest(s: usize, k: usize) -> (t: usize)
    requires
        s < 64,
        k < 8,
    ensures
        t == knight_landing(s as int, k as int),
        t <= 64,
        t < 64 ==> geom::leap(s as int, t as int),
{
    let (ddr, ddf, _, _, _, _) = KNIGHT_PATHS[k];
    let r: i32 = rank_of(s) as i32 + ddr;
    let f: i32 = file_of(s) as i32 + ddf;
    if on_board(r, f) {
        proof {
            geom::lemma_square(r as int, f as int);
            lemma_knight_landing(s as int, k as int);
        }
        sq(r as usize, f as usize)
    } else {
        64
    }
}

/// Union of all knight destinations from a square.
pub fn knight_targets(s: usize) -> (m: Bitboard)
    requires
        s < 64,
    ensures
        forall|t: int| #[trigger] bits::bit(m, t) <==> geom::valid(t) && geom::leap(s as int, t),
{
    let mut m: u64 = 0;
    let mut k: usize = 0;
    while k < 8
        invariant
            s < 64,
            k <= 8,
            forall|t: int| #[trigger]
                bits::bit(m, t) <==> geom::valid(t) && geom::leap(s as int, t) && knight_kind(
                    s as int,
                    t,
                ) < k,
        decreases 8 - k,
    {
        let t: usize = knight_dest(s, k);
        let ghost before = m;
        if t < 64 {
            m = m | bb(t);
        }
        proof {
            if t < 64 {
                lemma_knight_landing(s as int, k as int);
                lemma_knight_kind(s as int, t as int);
            }
            assert forall|x: int| #[trigger]
                bits::bit(m, x) <==> geom::valid(x) && geom::leap(s as int, x) && knight_kind(
                    s as int,
                    x,
                ) < k + 1 by {
                if geom::valid(x) && geom::leap(s as int, x) {
                    lemma_knight_kind(s as int, x);
                }
            }
        }
        k += 1;
    }
    proof {
        assert forall|t: int| #[trigger]
            bits::bit(m, t) <==> geom::valid(t) && geom::leap(s as int, t) by {
            if geom::valid(t) && geom::leap(s as int, t) {
                lemma_knight_kind(s as int, t);
            }
        }
    }
    m
}

/// Union of all path squares of any knight move from a square.
pub fn knight_span(s: usize) -> (m: Bitboard)
    requires
        s < 64,
    ensures
        forall|t: int| #[trigger]
            bits::bit(m, t) <==> geom::valid(t) && geom::knight_span(s as int, t),
{
    let mut m: u64 = 0;
    let mut k: usize = 0;
    while k < 8
        invariant
            s < 64,
            k <= 8,
            forall|x: int| #[trigger]
                bits::bit(m, x) <==> geom::valid(x) && exists|b: int|
                    geom::valid(b) && knight_kind(s as int, b) < k && #[trigger] geom::knight_path(
                        s as int,
                        b,
                        x,
                    ),
        decreases 8 - k,
    {
        let t: usize = knight_dest(s, k);
        let ghost before = m;
        if t < 64 {
            m = m | knight_path_mask(s, t);
        }
        proof {
            if t < 64 {
                lemma_knight_landing(s as int, k as int);
                lemma_knight_kind(s as int, t as int);
            }
            assert forall|x: int| #[trigger]
                bits::bit(m, x) <==> geom::valid(x) && exists|b: int|
                    geom::valid(b) && knight_kind(s as int, b) < k + 1
                        && #[trigger] geom::knight_path(s as int, b, x) by {
                if t < 64 && geom::valid(x) && geom::knight_path(s as int, t as int, x) {
                    assert(knight_kind(s as int, t as int) < k + 1);
                }
                if bits::bit(before, x) {
                    let b = choose|b: int|
                        geom::valid(b) && knight_kind(s as int, b) < k
                            && #[trigger] geom::knight_path(s as int, b, x);
                    assert(knight_kind(s as int, b) < k + 1);
                }
                if geom::valid(x) && exists|b: int|
                    geom::valid(b) && knight_kind(s as int, b) < k + 1
                        && #[trigger] geom::knight_path(s as int, b, x) {
                    let b = choose|b: int|
                        geom::valid(b) && knight_kind(s as int, b) < k + 1
                            && #[trigger] geom::knight_path(s as int, b, x);
                    lemma_knight_kind(s as int, b);
                    assert(knight_kind(s as int, b) < k || b == t);
                }
            }
        }
        k += 1;
    }
    proof {
        assert forall|x: int| #[trigger]
            bits::bit(m, x) <==> geom::valid(x) && geom::knight_span(s as int, x) by {
            if geom::valid(x) && geom::knight_span(s as int, x) {
                let b = choose|b: int|
                    geom::valid(b) && #[trigger] geom::knight_path(s as int, b, x);
                lemma_knight_kind(s as int, b);
                assert(knight_kind(s as int, b) < 8);
            }
        }
    }
    m
}

/// Number of squares from `s` to the edge in direction `d`.
pub fn ray_len(d: usize, s: usize) -> (n: usize)
    requires
        d < 8,
        s < 64,
    ensures
        n == geom::ray_len(d as int, s as int),
        n <= 7,
{
    let (dr, df) = DELTAS[d];
    let v: usize = if dr > 0 {
        7 - rank_of(s)
    } else if dr < 0 {
        rank_of(s)
    } else {
        7
    };
    let h: usize = if df > 0 {
        7 - file_of(s)
    } else if df < 0 {
        file_of(s)
    } else {
        7
    };
    if v < h {
        v
    } else {
        h
    }
}

/// The square `k` steps from `s` in direction `d`.
pub fn ray_square(d: usize, s: usize, k: usize) -> (t: usize)
    requires
        d < 8,
        s < 64,
        1 <= k <= geom::ray_len(d as int, s as int),
    ensures
        t == geom::ray_square(d as int, s as int, k as int),
        t < 64,
        geom::dir(s as int, t as int) == d,
        geom::dist(s as int, t as int) == k,
{
    let (dr, df) = DELTAS[d];
    proof {
        geom::lemma_ray_square(d as int, s as int, k as int);
    }
    let r: usize = if dr > 0 {
        rank_of(s) + k
    } else if dr < 0 {
        rank_of(s) - k
    } else {
        rank_of(s)
    };
    let f: usize = if df > 0 {
        file_of(s) + k
    } else if df < 0 {
        file_of(s) - k
    } else {
        file_of(s)
    };
    sq(r, f)
}

// ---------------------------------------------------------------------------
// Deterministic RNG (also used by self-play opening randomisation)
// ---------------------------------------------------------------------------

/// What the generator adds to its state at each step.
pub const GOLDEN_GAMMA: u64 = 0x9E3779B97F4A7C15;

/// What the generator hands out in state `z`.
pub open spec fn splitmix(z: u64) -> u64 {
    let a: u64 = ((z ^ (z >> 30u64)) as u64).wrapping_mul(0xBF58476D1CE4E5B9u64);
    let b: u64 = ((a ^ (a >> 27u64)) as u64).wrapping_mul(0x94D049BB133111EBu64);
    b ^ (b >> 31u64)
}

/// The generator's state after `n` steps from `seed`.
pub open spec fn state_after(seed: u64, n: nat) -> u64
    decreases n,
{
    if n == 0 {
        seed
    } else {
        state_after(seed, (n - 1) as nat).wrapping_add(GOLDEN_GAMMA)
    }
}

pub struct SplitMix64(u64);

impl Clone for SplitMix64 {
    fn clone(&self) -> (r: Self)
        ensures
            r == *self,
    {
        SplitMix64(self.0)
    }
}

impl SplitMix64 {
    /// The generator's whole state.
    pub closed spec fn state(self) -> u64 {
        self.0
    }

    pub fn new(seed: u64) -> (r: Self)
        ensures
            r.state() == seed,
    {
        SplitMix64(seed)
    }

    pub fn next(&mut self) -> (r: u64)
        ensures
            final(self).state() == old(self).state().wrapping_add(GOLDEN_GAMMA),
            r == splitmix(final(self).state()),
    {
        self.0 = self.0.wrapping_add(GOLDEN_GAMMA);
        mix(self.0)
    }

    /// A number below `n`; 0, without a step, for `n == 0`.
    pub fn below(&mut self, n: usize) -> (r: usize)
        ensures
            n == 0 ==> r == 0 && *final(self) == *old(self),
            n > 0 ==> {
                &&& final(self).state() == old(self).state().wrapping_add(GOLDEN_GAMMA)
                &&& r == splitmix(final(self).state()) as int % n as int
            },
            n > 0 ==> r < n,
    {
        if n == 0 {
            0
        } else {
            (self.next() % n as u64) as usize
        }
    }
}

fn mix(x: u64) -> (r: u64)
    ensures
        r == splitmix(x),
{
    let mut z: u64 = x;
    z = (z ^ (z >> 30)).wrapping_mul(0xBF58476D1CE4E5B9);
    z = (z ^ (z >> 27)).wrapping_mul(0x94D049BB133111EB);
    z ^ (z >> 31)
}

// ---------------------------------------------------------------------------
// Hash keys
// ---------------------------------------------------------------------------

/// The `n`-th number of the key stream, counted from one.
pub open spec fn key_stream(n: nat) -> u64 {
    splitmix(state_after(GOLDEN_GAMMA, n))
}

/// Hash key of piece `p` on square `s`.
pub open spec fn piece_key(p: int, s: int) -> u64 {
    key_stream((64 * p + s + 1) as nat)
}

/// Hash key of "black to move".
pub open spec fn side_key() -> u64 {
    key_stream(769)
}

/// Hash key of the ply count `i`.
pub open spec fn ply_key(i: int) -> u64 {
    key_stream((770 + i) as nat)
}

proof fn lemma_state_after(n: nat)
    ensures
        state_after(GOLDEN_GAMMA, n) as int == (GOLDEN_GAMMA * (n + 1)) % 0x1_0000_0000_0000_0000,
    decreases n,
{
    if n > 0 {
        lemma_state_after((n - 1) as nat);
        let g: int = GOLDEN_GAMMA as int;
        let m: int = 0x1_0000_0000_0000_0000;
        assert(g * (n + 1) == g * n + g) by (nonlinear_arith);
        vstd::arithmetic::div_mod::lemma_add_mod_noop(g * n, g, m);
        let x = state_after(GOLDEN_GAMMA, (n - 1) as nat) as int;
        assert(x == (g * n) % m);
        assert((x + g) % m == (g * (n + 1)) % m);
    }
}

/// Xoring can be undone.
pub proof fn lemma_xor_undone(a: u64, x: u64, y: u64)
    ensures
        (a ^ x) ^ a == x,
        a ^ x == a ^ y ==> x == y,
{
    assert((a ^ x) ^ a == x && (a ^ x == a ^ y ==> x == y)) by (bit_vector);
}

/// Multiplication by a number with an inverse can be undone.
pub proof fn lemma_wrapping_mul_undone(x: u64, c: u64, i: u64)
    requires
        (c * i) % 0x1_0000_0000_0000_0000 == 1,
    ensures
        x.wrapping_mul(c).wrapping_mul(i) == x,
{
    let m: int = 0x1_0000_0000_0000_0000;
    let (x0, c0, i0) = (x as int, c as int, i as int);
    let y = x.wrapping_mul(c) as int;
    assert(y == (x0 * c0) % m);
    vstd::arithmetic::div_mod::lemma_mul_mod_noop_left(x0 * c0, i0, m);
    assert((x0 * c0) * i0 == x0 * (c0 * i0)) by (nonlinear_arith);
    vstd::arithmetic::div_mod::lemma_mul_mod_noop_right(x0, c0 * i0, m);
    assert((y * i0) % m == x0 % m);
}

/// The generator hands out each number in one state only, and 0 in state 0.
proof fn lemma_splitmix(a: u64, b: u64)
    ensures
        splitmix(a) == splitmix(b) ==> a == b,
        splitmix(0) == 0,
{
    let (c1, i1) = (0xBF58476D1CE4E5B9u64, 0x96de1b173f119089u64);
    let (c2, i2) = (0x94D049BB133111EBu64, 0x319642b2d24d8ec3u64);
    assert((c1 * i1) % 0x1_0000_0000_0000_0000 == 1);
    assert((c2 * i2) % 0x1_0000_0000_0000_0000 == 1);
    let (a1, b1): (u64, u64) = (a ^ (a >> 30u64), b ^ (b >> 30u64));
    let (a2, b2): (u64, u64) = (a1.wrapping_mul(c1), b1.wrapping_mul(c1));
    let (a3, b3): (u64, u64) = (a2 ^ (a2 >> 27u64), b2 ^ (b2 >> 27u64));
    let (a4, b4): (u64, u64) = (a3.wrapping_mul(c2), b3.wrapping_mul(c2));
    assert(a ^ (a >> 30u64) == b ^ (b >> 30u64) ==> a == b) by (bit_vector);
    assert(a2 ^ (a2 >> 27u64) == b2 ^ (b2 >> 27u64) ==> a2 == b2) by (bit_vector);
    assert(a4 ^ (a4 >> 31u64) == b4 ^ (b4 >> 31u64) ==> a4 == b4) by (bit_vector);
    assert(0u64 ^ (0u64 >> 30u64) == 0 && 0u64 ^ (0u64 >> 27u64) == 0 && 0u64 ^ (0u64 >> 31u64)
        == 0) by (bit_vector);
    lemma_wrapping_mul_undone(a1, c1, i1);
    lemma_wrapping_mul_undone(b1, c1, i1);
    lemma_wrapping_mul_undone(a3, c2, i2);
    lemma_wrapping_mul_undone(b3, c2, i2);
}

/// The keys of the stream differ from each other and from 0.
pub proof fn law_keys_are_distinct(n: nat, k: nat)
    requires
        n < 0xffff_ffff_ffff_ffff,
        k < 0xffff_ffff_ffff_ffff,
    ensures
        n != k ==> key_stream(n) != key_stream(k),
        key_stream(n) != 0,
{
    let (a, b) = (state_after(GOLDEN_GAMMA, n), state_after(GOLDEN_GAMMA, k));
    lemma_state_after(n);
    lemma_state_after(k);
    lemma_splitmix(a, b);
    lemma_splitmix(a, 0);
    let i = 0xf1de83e19937733du64;
    assert((GOLDEN_GAMMA * i) % 0x1_0000_0000_0000_0000 == 1);
    let (x, y) = ((n + 1) as u64, (k + 1) as u64);
    assert(GOLDEN_GAMMA * (n + 1) == x * GOLDEN_GAMMA) by (nonlinear_arith)
        requires
            x == n + 1,
    ;
    assert(GOLDEN_GAMMA * (k + 1) == y * GOLDEN_GAMMA) by (nonlinear_arith)
        requires
            y == k + 1,
    ;
    lemma_wrapping_mul_undone(x, GOLDEN_GAMMA, i);
    lemma_wrapping_mul_undone(y, GOLDEN_GAMMA, i);
    assert(0u64.wrapping_mul(i) == 0);
}

/// The `n`-th key, without walking the stream.
fn stream_key(n: u64) -> (r: u64)
    requires
        n < 0xffff_ffff,
    ensures
        r == key_stream(n as nat),
{
    proof {
        lemma_state_after(n as nat);
    }
    mix(GOLDEN_GAMMA.wrapping_mul(n + 1))
}

pub fn zobrist_piece(p: usize, s: usize) -> (r: u64)
    requires
        p < 12,
        s < 64,
    ensures
        r == piece_key(p as int, s as int),
{
    stream_key((64 * p + s + 1) as u64)
}

pub fn zobrist_side() -> (r: u64)
    ensures
        r == side_key(),
{
    stream_key(769)
}

pub fn zobrist_ply(i: usize) -> (r: u64)
    requires
        i < 256,
    ensures
        r == ply_key(i as int),
{
    stream_key(770 + i as u64)
}

// ---------------------------------------------------------------------------
// Table storage
// ---------------------------------------------------------------------------

pub struct Tables {
    /// 3x3 region centred on the square, clipped at the edges. Includes the centre.
    pub blast: [Bitboard; 64],
    /// The up-to-8 neighbours of a square, excluding the square itself.
    pub ring: [Bitboard; 64],
    /// All squares in direction `d` from `s`, exclusive of `s`.
    pub rays: [[Bitboard; 64]; 8],
    /// Squares strictly between two aligned squares; 0 if not aligned.
    pub between: [[Bitboard; 64]; 64],
    /// Direction index from `a` to `b`, or 8 if not aligned.
    pub dir_between: [[u8; 64]; 64],
    /// Per square: for each of the 8 knight move kinds, `(dest, path_mask)`.
    /// `dest == 64` marks an off-board (illegal) knight move.
    pub knight_dest: [[u8; 8]; 64],
    pub knight_path: [[Bitboard; 8]; 64],
    /// `knight_path_lookup[from][to]` is the 3-square path mask, or 0 when `to`
    /// is not a knight destination from `from`.
    pub knight_path_lookup: Box<[[Bitboard; 64]; 64]>,
    /// Union of all knight destinations from a square (for quick "is a knight
    /// move to X legal" checks).
    pub knight_targets: [Bitboard; 64],
    /// Union of all path squares reachable by any knight move from a square.
    pub knight_span: [Bitboard; 64],
    /// Squares along direction `d` from `s`, in outward order. `ray_len` gives the
    /// count.
    pub ray_sq: [[[u8; 7]; 64]; 8],
    pub ray_len: [[u8; 64]; 8],
    /// Pseudo attacks on an empty board (used only as a fast reject).
    pub rook_pseudo: [Bitboard; 64],
    pub bishop_pseudo: [Bitboard; 64],
    /// Zobrist keys.
    pub zobrist_piece: [[u64; 64]; 12],
    pub zobrist_side: u64,
    /// Keys of the ply counts, for hashing a game that nears its cap.
    pub zobrist_ply: [u64; 256],
}

impl Tables {
    /// The masks of single squares.
    pub open spec fn masks_of(self, s: int) -> bool {
        &&& forall|t: int| #[trigger]
            bits::bit(self.blast@[s], t) <==> geom::valid(t) && geom::blast(s, t)
        &&& forall|t: int| #[trigger]
            bits::bit(self.ring@[s], t) <==> geom::valid(t) && geom::adjacent(s, t)
        &&& forall|t: int| #[trigger]
            bits::bit(self.knight_targets@[s], t) <==> geom::valid(t) && geom::leap(s, t)
        &&& forall|t: int| #[trigger]
            bits::bit(self.knight_span@[s], t) <==> geom::valid(t) && geom::knight_span(s, t)
        &&& forall|t: int| #[trigger]
            bits::bit(self.rook_pseudo@[s], t) <==> geom::valid(t) && geom::straight(
                geom::dir(s, t),
            )
        &&& forall|t: int| #[trigger]
            bits::bit(self.bishop_pseudo@[s], t) <==> geom::valid(t) && geom::diagonal(
                geom::dir(s, t),
            )
    }

    /// The entries of square `s` in direction `d`.
    pub open spec fn rays_of(self, d: int, s: int) -> bool {
        &&& forall|t: int| #[trigger]
            bits::bit(self.rays@[d]@[s], t) <==> geom::valid(t) && geom::dir(s, t) == d
        &&& self.ray_len@[d]@[s] == geom::ray_len(d, s)
        &&& forall|n: int|
            0 <= n < 7 ==> #[trigger] self.ray_sq@[d]@[s]@[n] == if n < geom::ray_len(d, s) {
                geom::ray_square(d, s, n + 1)
            } else {
                0
            }
    }

    /// The entries of the pair of squares `a` and `b`.
    pub open spec fn pair_of(self, a: int, b: int) -> bool {
        &&& forall|t: int| #[trigger]
            bits::bit(self.between@[a]@[b], t) <==> geom::valid(t) && geom::between(a, b, t)
        &&& self.dir_between@[a]@[b] == geom::dir(a, b)
        &&& forall|t: int| #[trigger]
            bits::bit(self.knight_path_lookup@[a]@[b], t) <==> geom::valid(t) && geom::knight_path(
                a,
                b,
                t,
            )
    }

    /// The entries of the knight's move of kind `k` from `s`.
    pub open spec fn leaps_of(self, s: int, k: int) -> bool {
        &&& self.knight_dest@[s]@[k] == knight_landing(s, k)
        &&& forall|t: int| #[trigger]
            bits::bit(self.knight_path@[s]@[k], t) <==> geom::valid(t) && knight_landing(s, k) != 64
                && geom::knight_path(s, knight_landing(s, k), t)
    }

    /// Every entry is what its name says.
    pub open spec fn wf(self) -> bool {
        &&& forall|s: int| geom::valid(s) ==> #[trigger] self.masks_of(s)
        &&& forall|d: int, s: int| 0 <= d < 8 && geom::valid(s) ==> #[trigger] self.rays_of(d, s)
        &&& forall|a: int, b: int|
            geom::valid(a) && geom::valid(b) ==> #[trigger] self.pair_of(a, b)
        &&& forall|s: int, k: int| geom::valid(s) && 0 <= k < 8 ==> #[trigger] self.leaps_of(s, k)
        &&& forall|p: int, s: int|
            0 <= p < 12 && geom::valid(s) ==> #[trigger] self.zobrist_piece@[p]@[s] == piece_key(
                p,
                s,
            )
        &&& self.zobrist_side == side_key()
        &&& forall|i: int| 0 <= i < 256 ==> #[trigger] self.zobrist_ply@[i] == ply_key(i)
    }
}

/// The squares from `s` to the edge in direction `d`, then zeros.
fn ray_row(d: usize, s: usize) -> (row: [u8; 7])
    requires
        d < 8,
        s < 64,
    ensures
        forall|n: int|
            0 <= n < 7 ==> #[trigger] row@[n] == if n < geom::ray_len(d as int, s as int) {
                geom::ray_square(d as int, s as int, n + 1)
            } else {
                0
            },
{
    let mut row: [u8; 7] = [0; 7];
    let len: usize = ray_len(d, s);
    let mut n: usize = 0;
    while n < len
        invariant
            d < 8,
            s < 64,
            n <= len <= 7,
            len == geom::ray_len(d as int, s as int),
            forall|i: int|
                0 <= i < 7 ==> #[trigger] row@[i] == if i < n {
                    geom::ray_square(d as int, s as int, i + 1)
                } else {
                    0
                },
        decreases len - n,
    {
        row[n] = ray_square(d, s, n + 1) as u8;
        n += 1;
    }
    row
}

fn fill_squares(t: &mut Tables)
    ensures
        forall|s: int| geom::valid(s) ==> #[trigger] final(t).masks_of(s),
        final(t).rays == old(t).rays,
        final(t).ray_len == old(t).ray_len,
        final(t).ray_sq == old(t).ray_sq,
        final(t).between == old(t).between,
        final(t).dir_between == old(t).dir_between,
        final(t).knight_path_lookup == old(t).knight_path_lookup,
        final(t).knight_dest == old(t).knight_dest,
        final(t).knight_path == old(t).knight_path,
        final(t).zobrist_piece == old(t).zobrist_piece,
        final(t).zobrist_side == old(t).zobrist_side,
        final(t).zobrist_ply == old(t).zobrist_ply,
{
    let mut s: usize = 0;
    while s < 64
        invariant
            s <= 64,
            t.rays == old(t).rays,
            t.ray_len == old(t).ray_len,
            t.ray_sq == old(t).ray_sq,
            t.between == old(t).between,
            t.dir_between == old(t).dir_between,
            t.knight_path_lookup == old(t).knight_path_lookup,
            t.knight_dest == old(t).knight_dest,
            t.knight_path == old(t).knight_path,
            t.zobrist_piece == old(t).zobrist_piece,
            t.zobrist_side == old(t).zobrist_side,
            t.zobrist_ply == old(t).zobrist_ply,
            forall|x: int| 0 <= x < s ==> #[trigger] t.masks_of(x),
        decreases 64 - s,
    {
        let ghost before = *t;
        t.blast[s] = blast_mask(s);
        t.ring[s] = ring_mask(s);
        t.knight_targets[s] = knight_targets(s);
        t.knight_span[s] = knight_span(s);
        t.rook_pseudo[s] = rook_attacks(s, 0);
        t.bishop_pseudo[s] = bishop_attacks(s, 0);
        proof {
            assert(t.masks_of(s as int));
            assert forall|x: int| 0 <= x < s implies #[trigger] t.masks_of(x) by {
                assert(before.masks_of(x));
            }
        }
        s += 1;
    }
}


fn fill_rays(t: &mut Tables)
    ensures
        forall|d: int, s: int| 0 <= d < 8 && geom::valid(s) ==> #[trigger] final(t).rays_of(d, s),
        final(t).blast == old(t).blast,
        final(t).ring == old(t).ring,
        final(t).knight_targets == old(t).knight_targets,
        final(t).knight_span == old(t).knight_span,
        final(t).rook_pseudo == old(t).rook_pseudo,
        final(t).bishop_pseudo == old(t).bishop_pseudo,
        final(t).between == old(t).between,
        final(t).dir_between == old(t).dir_between,
        final(t).knight_path_lookup == old(t).knight_path_lookup,
        final(t).knight_dest == old(t).knight_dest,
        final(t).knight_path == old(t).knight_path,
        final(t).zobrist_piece == old(t).zobrist_piece,
        final(t).zobrist_side == old(t).zobrist_side,
        final(t).zobrist_ply == old(t).zobrist_ply,
{
    let mut d: usize = 0;
    while d < 8
        invariant
            d <= 8,
            forall|x: int, y: int| 0 <= x < d && 0 <= y < 64 ==> #[trigger] t.rays_of(x, y),
            t.blast == old(t).blast,
            t.ring == old(t).ring,
            t.knight_targets == old(t).knight_targets,
            t.knight_span == old(t).knight_span,
            t.rook_pseudo == old(t).rook_pseudo,
            t.bishop_pseudo == old(t).bishop_pseudo,
            t.between == old(t).between,
            t.dir_between == old(t).dir_between,
            t.knight_path_lookup == old(t).knight_path_lookup,
            t.knight_dest == old(t).knight_dest,
            t.knight_path == old(t).knight_path,
            t.zobrist_piece == old(t).zobrist_piece,
            t.zobrist_side == old(t).zobrist_side,
            t.zobrist_ply == old(t).zobrist_ply,
        decreases 8 - d,
    {
        let mut s: usize = 0;
        while s < 64
            invariant
                d < 8,
                s <= 64,
                forall|x: int, y: int|
                    0 <= x < d && 0 <= y < 64 || x == d && 0 <= y < s ==> #[trigger] t.rays_of(x, y),
                t.blast == old(t).blast,
                t.ring == old(t).ring,
                t.knight_targets == old(t).knight_targets,
                t.knight_span == old(t).knight_span,
                t.rook_pseudo == old(t).rook_pseudo,
                t.bishop_pseudo == old(t).bishop_pseudo,
                t.between == old(t).between,
                t.dir_between == old(t).dir_between,
                t.knight_path_lookup == old(t).knight_path_lookup,
                t.knight_dest == old(t).knight_dest,
                t.knight_path == old(t).knight_path,
                t.zobrist_piece == old(t).zobrist_piece,
                t.zobrist_side == old(t).zobrist_side,
                t.zobrist_ply == old(t).zobrist_ply,
            decreases 64 - s,
        {
            let ghost before = *t;
            t.rays[d][s] = ray_mask(d, s);
            t.ray_len[d][s] = ray_len(d, s) as u8;
            t.ray_sq[d][s] = ray_row(d, s);
            proof {
                assert(t.rays_of(d as int, s as int));
                assert forall|x: int, y: int|
                    0 <= x < d && 0 <= y < 64 || x == d && 0 <= y < s implies #[trigger] t.rays_of(x, y) by {
                    assert(before.rays_of(x, y));
                }
            }
            s += 1;
        }
        d += 1;
    }
}

fn fill_pairs(t: &mut Tables)
    ensures
        forall|a: int, b: int| geom::valid(a) && geom::valid(b) ==> #[trigger] final(t).pair_of(a, b),
        final(t).blast == old(t).blast,
        final(t).ring == old(t).ring,
        final(t).knight_targets == old(t).knight_targets,
        final(t).knight_span == old(t).knight_span,
        final(t).rook_pseudo == old(t).rook_pseudo,
        final(t).bishop_pseudo == old(t).bishop_pseudo,
        final(t).rays == old(t).rays,
        final(t).ray_len == old(t).ray_len,
        final(t).ray_sq == old(t).ray_sq,
        final(t).knight_dest == old(t).knight_dest,
        final(t).knight_path == old(t).knight_path,
        final(t).zobrist_piece == old(t).zobrist_piece,
        final(t).zobrist_side == old(t).zobrist_side,
        final(t).zobrist_ply == old(t).zobrist_ply,
{
    let mut a: usize = 0;
    while a < 64
        invariant
            a <= 64,
            forall|x: int, y: int| 0 <= x < a && 0 <= y < 64 ==> #[trigger] t.pair_of(x, y),
            t.blast == old(t).blast,
            t.ring == old(t).ring,
            t.knight_targets == old(t).knight_targets,
            t.knight_span == old(t).knight_span,
            t.rook_pseudo == old(t).rook_pseudo,
            t.bishop_pseudo == old(t).bishop_pseudo,
            t.rays == old(t).rays,
            t.ray_len == old(t).ray_len,
            t.ray_sq == old(t).ray_sq,
            t.knight_dest == old(t).knight_dest,
            t.knight_path == old(t).knight_path,
            t.zobrist_piece == old(t).zobrist_piece,
            t.zobrist_side == old(t).zobrist_side,
            t.zobrist_ply == old(t).zobrist_ply,
        decreases 64 - a,
    {
        let mut b: usize = 0;
        while b < 64
            invariant
                a < 64,
                b <= 64,
                forall|x: int, y: int|
                    0 <= x < a && 0 <= y < 64 || x == a && 0 <= y < b ==> #[trigger] t.pair_of(x, y),
                t.blast == old(t).blast,
                t.ring == old(t).ring,
                t.knight_targets == old(t).knight_targets,
                t.knight_span == old(t).knight_span,
                t.rook_pseudo == old(t).rook_pseudo,
                t.bishop_pseudo == old(t).bishop_pseudo,
                t.rays == old(t).rays,
                t.ray_len == old(t).ray_len,
                t.ray_sq == old(t).ray_sq,
                t.knight_dest == old(t).knight_dest,
                t.knight_path == old(t).knight_path,
                t.zobrist_piece == old(t).zobrist_piece,
                t.zobrist_side == old(t).zobrist_side,
                t.zobrist_ply == old(t).zobrist_ply,
            decreases 64 - b,
        {
            let ghost before = *t;
            t.between[a][b] = between_mask(a, b);
            t.dir_between[a][b] = direction(a, b) as u8;
            t.knight_path_lookup[a][b] = knight_path_mask(a, b);
            proof {
                assert(t.pair_of(a as int, b as int));
                assert forall|x: int, y: int|
                    0 <= x < a && 0 <= y < 64 || x == a && 0 <= y < b implies #[trigger] t.pair_of(x, y) by {
                    assert(before.pair_of(x, y));
                }
            }
            b += 1;
        }
        a += 1;
    }
}

fn fill_leaps(t: &mut Tables)
    ensures
        forall|s: int, k: int| geom::valid(s) && 0 <= k < 8 ==> #[trigger] final(t).leaps_of(s, k),
        final(t).blast == old(t).blast,
        final(t).ring == old(t).ring,
        final(t).knight_targets == old(t).knight_targets,
        final(t).knight_span == old(t).knight_span,
        final(t).rook_pseudo == old(t).rook_pseudo,
        final(t).bishop_pseudo == old(t).bishop_pseudo,
        final(t).rays == old(t).rays,
        final(t).ray_len == old(t).ray_len,
        final(t).ray_sq == old(t).ray_sq,
        final(t).between == old(t).between,
        final(t).dir_between == old(t).dir_between,
        final(t).knight_path_lookup == old(t).knight_path_lookup,
        final(t).zobrist_piece == old(t).zobrist_piece,
        final(t).zobrist_side == old(t).zobrist_side,
        final(t).zobrist_ply == old(t).zobrist_ply,
{
    let mut s: usize = 0;
    while s < 64
        invariant
            s <= 64,
            forall|x: int, y: int| 0 <= x < s && 0 <= y < 8 ==> #[trigger] t.leaps_of(x, y),
            t.blast == old(t).blast,
            t.ring == old(t).ring,
            t.knight_targets == old(t).knight_targets,
            t.knight_span == old(t).knight_span,
            t.rook_pseudo == old(t).rook_pseudo,
            t.bishop_pseudo == old(t).bishop_pseudo,
            t.rays == old(t).rays,
            t.ray_len == old(t).ray_len,
            t.ray_sq == old(t).ray_sq,
            t.between == old(t).between,
            t.dir_between == old(t).dir_between,
            t.knight_path_lookup == old(t).knight_path_lookup,
            t.zobrist_piece == old(t).zobrist_piece,
            t.zobrist_side == old(t).zobrist_side,
            t.zobrist_ply == old(t).zobrist_ply,
        decreases 64 - s,
    {
        let mut k: usize = 0;
        while k < 8
            invariant
                s < 64,
                k <= 8,
                forall|x: int, y: int|
                    0 <= x < s && 0 <= y < 8 || x == s && 0 <= y < k ==> #[trigger] t.leaps_of(x, y),
                t.blast == old(t).blast,
                t.ring == old(t).ring,
                t.knight_targets == old(t).knight_targets,
                t.knight_span == old(t).knight_span,
                t.rook_pseudo == old(t).rook_pseudo,
                t.bishop_pseudo == old(t).bishop_pseudo,
                t.rays == old(t).rays,
                t.ray_len == old(t).ray_len,
                t.ray_sq == old(t).ray_sq,
                t.between == old(t).between,
                t.dir_between == old(t).dir_between,
                t.knight_path_lookup == old(t).knight_path_lookup,
                t.zobrist_piece == old(t).zobrist_piece,
                t.zobrist_side == old(t).zobrist_side,
                t.zobrist_ply == old(t).zobrist_ply,
            decreases 8 - k,
        {
            let ghost before = *t;
            let dest: usize = knight_dest(s, k);
            t.knight_dest[s][k] = dest as u8;
            if dest < 64 {
                t.knight_path[s][k] = knight_path_mask(s, dest);
            } else {
                t.knight_path[s][k] = 0;
            }
            proof {
                assert(t.leaps_of(s as int, k as int));
                assert forall|x: int, y: int|
                    0 <= x < s && 0 <= y < 8 || x == s && 0 <= y < k implies #[trigger] t.leaps_of(x, y) by {
                    assert(before.leaps_of(x, y));
                }
            }
            k += 1;
        }
        s += 1;
    }
}

fn piece_keys() -> (keys: [[u64; 64]; 12])
    ensures
        forall|p: int, s: int|
            0 <= p < 12 && geom::valid(s) ==> #[trigger] keys@[p]@[s] == piece_key(p, s),
{
    let mut keys: [[u64; 64]; 12] = [[0; 64]; 12];
    let mut p: usize = 0;
    while p < 12
        invariant
            p <= 12,
            forall|x: int, y: int|
                0 <= x < p && 0 <= y < 64 ==> #[trigger] keys@[x]@[y] == piece_key(x, y),
        decreases 12 - p,
    {
        let mut s: usize = 0;
        while s < 64
            invariant
                p < 12,
                s <= 64,
                forall|x: int, y: int|
                    0 <= x < p && 0 <= y < 64 || x == p && 0 <= y < s ==> #[trigger] keys@[x]@[y]
                        == piece_key(x, y),
            decreases 64 - s,
        {
            keys[p][s] = zobrist_piece(p, s);
            s += 1;
        }
        p += 1;
    }
    keys
}

fn ply_keys() -> (keys: [u64; 256])
    ensures
        forall|i: int| 0 <= i < 256 ==> #[trigger] keys@[i] == ply_key(i),
{
    let mut keys: [u64; 256] = [0; 256];
    let mut i: usize = 0;
    while i < 256
        invariant
            i <= 256,
            forall|x: int| 0 <= x < i ==> #[trigger] keys@[x] == ply_key(x),
        decreases 256 - i,
    {
        keys[i] = zobrist_ply(i);
        i += 1;
    }
    keys
}

/// All the tables.
pub fn build() -> (t: Tables)
    ensures
        t.wf(),
{
    let mut t = Tables {
        blast: [0; 64],
        ring: [0; 64],
        rays: [[0; 64]; 8],
        between: [[0; 64]; 64],
        dir_between: [[8; 64]; 64],
        knight_dest: [[64; 8]; 64],
        knight_path: [[0; 8]; 64],
        knight_path_lookup: Box::new([[0; 64]; 64]),
        knight_targets: [0; 64],
        knight_span: [0; 64],
        ray_sq: [[[0; 7]; 64]; 8],
        ray_len: [[0; 64]; 8],
        rook_pseudo: [0; 64],
        bishop_pseudo: [0; 64],
        zobrist_piece: piece_keys(),
        zobrist_side: zobrist_side(),
        zobrist_ply: ply_keys(),
    };
    fill_squares(&mut t);
    let ghost t1 = t;
    fill_rays(&mut t);
    let ghost t2 = t;
    fill_pairs(&mut t);
    let ghost t3 = t;
    fill_leaps(&mut t);
    proof {
        assert forall|s: int| geom::valid(s) implies #[trigger] t.masks_of(s) by {
            assert(t1.masks_of(s));
        }
        assert forall|d: int, s: int| 0 <= d < 8 && geom::valid(s) implies #[trigger] t.rays_of(
            d,
            s,
        ) by {
            assert(t2.rays_of(d, s));
        }
        assert forall|a: int, b: int|
            geom::valid(a) && geom::valid(b) implies #[trigger] t.pair_of(a, b) by {
            assert(t3.pair_of(a, b));
        }
    }
    t
}

/// Builds the tables, for a caller that wants them at hand.
pub fn init() -> (t: Tables)
    ensures
        t.wf(),
{
    build()
}

} // verus!
