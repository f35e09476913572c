//! The geometry of the board: alignment, distance, blasts and knight paths.
//!
//! Squares are the integers 0..64, `8 * rank + file`.

use vstd::prelude::*;
use crate::types::PieceType;

verus! {

pub open spec fn rank(s: int) -> int {
    s / 8
}

pub open spec fn file(s: int) -> int {
    s % 8
}

pub open spec fn square(r: int, f: int) -> int {
    8 * r + f
}

pub open spec fn on_board(r: int, f: int) -> bool {
    0 <= r < 8 && 0 <= f < 8
}

pub open spec fn valid(s: int) -> bool {
    0 <= s < 64
}

pub open spec fn abs(x: int) -> int {
    if x < 0 {
        -x
    } else {
        x
    }
}

pub open spec fn sign(x: int) -> int {
    if x < 0 {
        -1
    } else if x > 0 {
        1
    } else {
        0
    }
}

/// Ranks from `a` up to `b`.
pub open spec fn dr(a: int, b: int) -> int {
    rank(b) - rank(a)
}

/// Files from `a` right to `b`.
pub open spec fn df(a: int, b: int) -> int {
    file(b) - file(a)
}

/// Number of king steps from `a` to `b`.
pub open spec fn dist(a: int, b: int) -> int {
    if abs(dr(a, b)) < abs(df(a, b)) {
        abs(df(a, b))
    } else {
        abs(dr(a, b))
    }
}

/// Some rank, file or diagonal runs from `a` to another square `b`.
pub open spec fn aligned(a: int, b: int) -> bool {
    a != b && (dr(a, b) == 0 || df(a, b) == 0 || abs(dr(a, b)) == abs(df(a, b)))
}

/// Direction with the given steps: north 0, then clockwise, north-west 7.
pub open spec fn dir_code(r: int, f: int) -> int {
    if r > 0 {
        if f == 0 {
            0
        } else if f > 0 {
            1
        } else {
            7
        }
    } else if r == 0 {
        if f > 0 {
            2
        } else {
            6
        }
    } else if f > 0 {
        3
    } else if f == 0 {
        4
    } else {
        5
    }
}

/// Direction from `a` to `b`, or 8 when they are not aligned.
pub open spec fn dir(a: int, b: int) -> int {
    if aligned(a, b) {
        dir_code(dr(a, b), df(a, b))
    } else {
        8
    }
}

/// Ranks gained by one step in direction `d`.
pub open spec fn step_r(d: int) -> int {
    if d == 0 || d == 1 || d == 7 {
        1
    } else if d == 3 || d == 4 || d == 5 {
        -1
    } else {
        0
    }
}

/// Files gained by one step in direction `d`.
pub open spec fn step_f(d: int) -> int {
    if d == 1 || d == 2 || d == 3 {
        1
    } else if d == 5 || d == 6 || d == 7 {
        -1
    } else {
        0
    }
}

/// North, east, south and west.
pub open spec fn straight(d: int) -> bool {
    d == 0 || d == 2 || d == 4 || d == 6
}

/// The four diagonals.
pub open spec fn diagonal(d: int) -> bool {
    d == 1 || d == 3 || d == 5 || d == 7
}

/// A rook slides straight and a bishop diagonally; nothing else slides.
pub open spec fn slides(pt: PieceType, a: int, b: int) -> bool {
    match pt {
        PieceType::Rook => straight(dir(a, b)),
        PieceType::Bishop => diagonal(dir(a, b)),
        _ => false,
    }
}

/// `x` lies strictly between the aligned squares `a` and `b`.
pub open spec fn between(a: int, b: int, x: int) -> bool {
    &&& aligned(a, b)
    &&& dir(a, x) == dir(a, b)
    &&& dist(a, x) < dist(a, b)
}

/// `x` is in the three-by-three region centred on `c`.
pub open spec fn blast(c: int, x: int) -> bool {
    abs(dr(c, x)) <= 1 && abs(df(c, x)) <= 1
}

/// `x` is a neighbour of `c`.
pub open spec fn adjacent(c: int, x: int) -> bool {
    blast(c, x) && c != x
}

/// `b` is a knight's leap from `a`.
pub open spec fn leap(a: int, b: int) -> bool {
    (abs(dr(a, b)) == 2 && abs(df(a, b)) == 1) || (abs(dr(a, b)) == 1 && abs(df(a, b)) == 2)
}

/// `x` is on the knight's path from `a` to `b`: two steps along the longer axis,
/// then one across, so both intermediate squares and the destination.
pub open spec fn knight_path(a: int, b: int, x: int) -> bool {
    &&& leap(a, b)
    &&& {
        ||| x == b
        ||| abs(dr(a, b)) == 2 && df(a, x) == 0 && (dr(a, x) == sign(dr(a, b)) || dr(a, x) == dr(
            a,
            b,
        ))
        ||| abs(df(a, b)) == 2 && dr(a, x) == 0 && (df(a, x) == sign(df(a, b)) || df(a, x) == df(
            a,
            b,
        ))
    }
}

/// `x` is on some knight's path that starts at `a`.
pub open spec fn knight_span(a: int, x: int) -> bool {
    exists|b: int| valid(b) && #[trigger] knight_path(a, b, x)
}

/// Number of squares from `s` to the edge in direction `d`.
pub open spec fn ray_len(d: int, s: int) -> int {
    let v = if step_r(d) == 1 {
        7 - rank(s)
    } else if step_r(d) == -1 {
        rank(s)
    } else {
        7
    };
    let h = if step_f(d) == 1 {
        7 - file(s)
    } else if step_f(d) == -1 {
        file(s)
    } else {
        7
    };
    if v < h {
        v
    } else {
        h
    }
}

/// The square `k` steps from `s` in direction `d`.
pub open spec fn ray_square(d: int, s: int, k: int) -> int {
    square(
        if step_r(d) == 1 {
            rank(s) + k
        } else if step_r(d) == -1 {
            rank(s) - k
        } else {
            rank(s)
        },
        if step_f(d) == 1 {
            file(s) + k
        } else if step_f(d) == -1 {
            file(s) - k
        } else {
            file(s)
        },
    )
}

pub proof fn lemma_square(r: int, f: int)
    requires
        on_board(r, f),
    ensures
        valid(square(r, f)),
        rank(square(r, f)) == r,
        file(square(r, f)) == f,
{
}

/// The squares in direction `d` are exactly the ray squares, and each stands at its
/// own distance.
pub proof fn lemma_ray_square(d: int, s: int, k: int)
    requires
        0 <= d < 8,
        valid(s),
        1 <= k <= ray_len(d, s),
    ensures
        valid(ray_square(d, s, k)),
        dir(s, ray_square(d, s, k)) == d,
        dist(s, ray_square(d, s, k)) == k,
{
    let r = rank(s) + k * step_r(d);
    let f = file(s) + k * step_f(d);
    assert(on_board(r, f));
    lemma_square(r, f);
    assert(ray_square(d, s, k) == square(r, f));
}

pub proof fn lemma_on_ray(d: int, s: int, t: int)
    requires
        0 <= d < 8,
        valid(s),
        valid(t),
        dir(s, t) == d,
    ensures
        1 <= dist(s, t) <= ray_len(d, s),
        t == ray_square(d, s, dist(s, t)),
{
}

/// A knight's path ends on its destination and misses its origin.
pub proof fn lemma_knight_misses(a: int, b: int)
    requires
        valid(a),
        valid(b),
        leap(a, b),
    ensures
        knight_path(a, b, b),
        !knight_path(a, b, a),
{
}

} // verus!
