//! Sets of squares packed into 64 bits, and sums and counts over the board.

use vstd::prelude::*;
use vstd::std_specs::bits::u64_trailing_zeros;
use vstd::std_specs::bits::axiom_u64_trailing_zeros;

verus! {

/// One bit per square, square `s` at bit `s`.
pub type Bitboard = u64;

/// Square `s` is a member of the board `b`.
#[verifier::opaque]
pub open spec fn bit(b: u64, s: int) -> bool {
    0 <= s < 64 && (b >> (s as u64)) & 1u64 == 1u64
}

/// Sum of `f` over the squares below `n`.
pub open spec fn sum_below(f: spec_fn(int) -> int, n: nat) -> int
    decreases n,
{
    if n == 0 {
        0
    } else {
        sum_below(f, (n - 1) as nat) + f(n - 1)
    }
}

/// Sum of `f` over the 64 squares.
pub open spec fn sum_squares(f: spec_fn(int) -> int) -> int {
    sum_below(f, 64)
}

/// How many of the squares below `n` satisfy `p`.
pub open spec fn count_below(p: spec_fn(int) -> bool, n: nat) -> int
    decreases n,
{
    if n == 0 {
        0
    } else {
        count_below(p, (n - 1) as nat) + if p(n - 1) { 1int } else { 0int }
    }
}

/// How many of the 64 squares satisfy `p`.
pub open spec fn count_squares(p: spec_fn(int) -> bool) -> int {
    count_below(p, 64)
}

/// Number of members of a board.
pub open spec fn popcount(b: u64) -> int {
    count_squares(|s: int| bit(b, s))
}

/// The squares below `n` that satisfy `p`, ascending.
pub open spec fn list_below(p: spec_fn(int) -> bool, n: nat) -> Seq<int>
    decreases n,
{
    if n == 0 {
        Seq::empty()
    } else if p(n - 1) {
        list_below(p, (n - 1) as nat).push(n - 1)
    } else {
        list_below(p, (n - 1) as nat)
    }
}

/// The squares that satisfy `p`, ascending.
pub open spec fn list_squares(p: spec_fn(int) -> bool) -> Seq<int> {
    list_below(p, 64)
}

/// The lowest square at or above `n` that satisfies `p`, if any.
pub open spec fn first_from(p: spec_fn(int) -> bool, n: int) -> Option<int>
    decreases 64 - n,
{
    if n >= 64 {
        None
    } else if p(n) {
        Some(n)
    } else {
        first_from(p, n + 1)
    }
}

/// `u64::count_ones` counts the members of a board.
pub assume_specification[ u64::count_ones ](i: u64) -> (r: u32)
    ensures
        r == popcount(i),
;

// ---------------------------------------------------------------------------
// Membership of combined boards
// ---------------------------------------------------------------------------

pub broadcast proof fn lemma_bit_range(b: u64, s: int)
    ensures
        #[trigger] bit(b, s) ==> 0 <= s < 64,
{
    reveal(bit);
}

pub broadcast proof fn lemma_bit_or(a: u64, b: u64, s: int)
    ensures
        #[trigger] bit(a | b, s) <==> bit(a, s) || bit(b, s),
{
    reveal(bit);
    let t = s as u64;
    assert(((a | b) >> t) & 1u64 == 1u64 <==> ((a >> t) & 1u64 == 1u64 || (b >> t) & 1u64 == 1u64))
        by (bit_vector);
}

pub broadcast proof fn lemma_bit_and(a: u64, b: u64, s: int)
    ensures
        #[trigger] bit(a & b, s) <==> bit(a, s) && bit(b, s),
{
    reveal(bit);
    let t = s as u64;
    assert(((a & b) >> t) & 1u64 == 1u64 <==> ((a >> t) & 1u64 == 1u64 && (b >> t) & 1u64 == 1u64))
        by (bit_vector);
}

pub broadcast proof fn lemma_bit_xor(a: u64, b: u64, s: int)
    ensures
        #[trigger] bit(a ^ b, s) <==> bit(a, s) != bit(b, s),
{
    reveal(bit);
    let t = s as u64;
    assert(((a ^ b) >> t) & 1u64 == 1u64 <==> (((a >> t) & 1u64 == 1u64) != ((b >> t) & 1u64
        == 1u64))) by (bit_vector);
}

pub broadcast proof fn lemma_bit_not(a: u64, s: int)
    ensures
        #[trigger] bit(!a, s) <==> 0 <= s < 64 && !bit(a, s),
{
    reveal(bit);
    if 0 <= s < 64 {
        let t = s as u64;
        assert(((!a) >> t) & 1u64 == 1u64 <==> (a >> t) & 1u64 != 1u64) by (bit_vector)
            requires
                t < 64,
        ;
    }
}

pub broadcast proof fn lemma_bit_zero(s: int)
    ensures
        !#[trigger] bit(0u64, s),
{
    reveal(bit);
    let t = s as u64;
    assert((0u64 >> t) & 1u64 == 0u64) by (bit_vector);
}

pub broadcast proof fn lemma_bit_single(t: usize, s: int)
    requires
        t < 64,
    ensures
        #[trigger] bit(1u64 << t, s) <==> s == t,
{
    reveal(bit);
    if 0 <= s < 64 {
        let a = t as u64;
        let c = s as u64;
        assert((((1u64 << a) >> c) & 1u64 == 1u64) <==> a == c) by (bit_vector)
            requires
                a < 64,
                c < 64,
        ;
        assert(1u64 << t == 1u64 << a);
    }
}

pub broadcast group group_bits {
    lemma_bit_range,
    lemma_bit_or,
    lemma_bit_and,
    lemma_bit_xor,
    lemma_bit_not,
    lemma_bit_zero,
    lemma_bit_single,
}

/// A board is empty exactly when it has no member.
pub proof fn lemma_empty_board(b: u64)
    ensures
        b == 0 <==> forall|s: int| !#[trigger] bit(b, s),
{
    broadcast use group_bits;

    if b != 0 {
        axiom_u64_trailing_zeros(b);
        reveal(bit);
        assert(bit(b, u64_trailing_zeros(b) as int));
    }
}

/// Boards with the same members are equal.
pub proof fn lemma_board_ext(a: u64, b: u64)
    requires
        forall|s: int| 0 <= s < 64 ==> #[trigger] bit(a, s) == bit(b, s),
    ensures
        a == b,
{
    broadcast use group_bits;

    let x = a ^ b;
    lemma_empty_board(x);
    assert forall|s: int| !#[trigger] bit(x, s) by {
        if bit(x, s) {
            assert(bit(a, s) == bit(b, s));
        }
    }
    assert(a ^ b == 0 ==> a == b) by (bit_vector);
}

/// The lowest member of a board, and what is left when it is taken out.
pub proof fn lemma_lowest(b: u64)
    requires
        b != 0,
    ensures
        0 <= u64_trailing_zeros(b) < 64,
        bit(b, u64_trailing_zeros(b) as int),
        forall|s: int| #[trigger] bit(b, s) ==> s >= u64_trailing_zeros(b),
        forall|s: int| #[trigger]
            bit((b & (b - 1) as u64) as u64, s) <==> bit(b, s) && s != u64_trailing_zeros(b),
        (b & (b - 1) as u64) < b,
{
    axiom_u64_trailing_zeros(b);
    reveal(bit);
    let t = u64_trailing_zeros(b) as u64;
    let m = (b - 1) as u64;
    let k = (64 - t) as u64;
    assert forall|s: int| #[trigger] bit(b, s) implies s >= t by {
        if s < t {
            let j = s as u64;
            assert((b >> j) & 1u64 == 0u64);
        }
    }
    assert forall|s: int| #[trigger] bit(b & m, s) <==> bit(b, s) && s != t by {
        if 0 <= s < 64 {
            let c = s as u64;
            assert((((b & m) >> c) & 1u64 == 1u64) <==> ((b >> c) & 1u64 == 1u64 && c != t))
                by (bit_vector)
                requires
                    c < 64,
                    t < 64,
                    m == b - 1,
                    b != 0,
                    (b >> t) & 1u64 == 1u64,
                    k == 64 - t,
                    b << k == 0,
            ;
        }
    }
    assert((b & m) < b) by (bit_vector)
        requires
            m == b - 1,
            b != 0,
    ;
}

// ---------------------------------------------------------------------------
// Sums, counts and lists
// ---------------------------------------------------------------------------

pub proof fn lemma_sum_ext(f: spec_fn(int) -> int, g: spec_fn(int) -> int, n: nat)
    requires
        forall|s: int| 0 <= s < n ==> #[trigger] f(s) == g(s),
    ensures
        sum_below(f, n) == sum_below(g, n),
    decreases n,
{
    if n > 0 {
        lemma_sum_ext(f, g, (n - 1) as nat);
        assert(f(n - 1) == g(n - 1));
    }
}

pub proof fn lemma_count_ext(p: spec_fn(int) -> bool, q: spec_fn(int) -> bool, n: nat)
    requires
        forall|s: int| 0 <= s < n ==> #[trigger] p(s) == q(s),
    ensures
        count_below(p, n) == count_below(q, n),
    decreases n,
{
    if n > 0 {
        lemma_count_ext(p, q, (n - 1) as nat);
        assert(p(n - 1) == q(n - 1));
    }
}

pub proof fn lemma_count_bounds(p: spec_fn(int) -> bool, n: nat)
    ensures
        0 <= count_below(p, n) <= n,
    decreases n,
{
    if n > 0 {
        lemma_count_bounds(p, (n - 1) as nat);
    }
}

pub proof fn lemma_list_ext(p: spec_fn(int) -> bool, q: spec_fn(int) -> bool, n: nat)
    requires
        forall|s: int| 0 <= s < n ==> #[trigger] p(s) == q(s),
    ensures
        list_below(p, n) == list_below(q, n),
    decreases n,
{
    if n > 0 {
        lemma_list_ext(p, q, (n - 1) as nat);
        assert(p(n - 1) == q(n - 1));
    }
}

/// Squares that do not satisfy `p` add nothing to the list.
pub proof fn lemma_list_gap(p: spec_fn(int) -> bool, lo: nat, hi: nat)
    requires
        lo <= hi,
        forall|s: int| lo <= s < hi ==> !#[trigger] p(s),
    ensures
        list_below(p, hi) == list_below(p, lo),
    decreases hi,
{
    if lo < hi {
        lemma_list_gap(p, lo, (hi - 1) as nat);
        assert(!p(hi - 1));
    }
}

pub proof fn lemma_list_members(p: spec_fn(int) -> bool, n: nat)
    ensures
        forall|s: int| #[trigger] list_below(p, n).contains(s) <==> 0 <= s < n && p(s),
        list_below(p, n).len() == count_below(p, n),
        list_below(p, n).no_duplicates(),
        forall|i: int, j: int|
            0 <= i < j < list_below(p, n).len() ==> #[trigger] list_below(p, n)[i]
                < #[trigger] list_below(p, n)[j],
        forall|i: int| 0 <= i < list_below(p, n).len() ==> 0 <= #[trigger] list_below(p, n)[i] < n,
    decreases n,
{
    if n > 0 {
        lemma_list_members(p, (n - 1) as nat);
        let prev = list_below(p, (n - 1) as nat);
        let cur = list_below(p, n);
        assert forall|s: int| #[trigger] cur.contains(s) <==> 0 <= s < n && p(s) by {
            if p(n - 1) {
                assert(cur[prev.len() as int] == n - 1);
                if prev.contains(s) {
                    let i = choose|i: int| 0 <= i < prev.len() && prev[i] == s;
                    assert(cur[i] == s);
                }
                if cur.contains(s) {
                    let i = choose|i: int| 0 <= i < cur.len() && cur[i] == s;
                    if i < prev.len() {
                        assert(prev[i] == s);
                        assert(prev.contains(s));
                    }
                }
            }
        }
    }
}

/// `first_from` finds the lowest square.
pub proof fn lemma_first_some(p: spec_fn(int) -> bool, n: int, t: int)
    requires
        0 <= n <= t < 64,
        p(t),
        forall|s: int| n <= s < t ==> !#[trigger] p(s),
    ensures
        first_from(p, n) == Some(t),
    decreases t - n,
{
    if n < t {
        assert(!p(n));
        lemma_first_some(p, n + 1, t);
    }
}

pub proof fn lemma_first_none(p: spec_fn(int) -> bool, n: int)
    requires
        0 <= n <= 64,
        forall|s: int| n <= s < 64 ==> !#[trigger] p(s),
    ensures
        first_from(p, n) is None,
    decreases 64 - n,
{
    if n < 64 {
        assert(!p(n));
        lemma_first_none(p, n + 1);
    }
}

/// Squares that do not satisfy `p` add nothing to the count.
pub proof fn lemma_count_gap(p: spec_fn(int) -> bool, lo: nat, hi: nat)
    requires
        lo <= hi,
        forall|s: int| lo <= s < hi ==> !#[trigger] p(s),
    ensures
        count_below(p, hi) == count_below(p, lo),
    decreases hi,
{
    if lo < hi {
        lemma_count_gap(p, lo, (hi - 1) as nat);
        assert(!p(hi - 1));
    }
}

/// A count of zero leaves nothing.
pub proof fn lemma_count_zero(p: spec_fn(int) -> bool, n: nat)
    requires
        count_below(p, n) == 0,
    ensures
        forall|s: int| 0 <= s < n ==> !#[trigger] p(s),
    decreases n,
{
    if n > 0 {
        lemma_count_bounds(p, (n - 1) as nat);
        lemma_count_zero(p, (n - 1) as nat);
    }
}

/// Fewer squares, smaller count.
pub proof fn lemma_count_mono(p: spec_fn(int) -> bool, q: spec_fn(int) -> bool, n: nat)
    requires
        forall|s: int| 0 <= s < n && #[trigger] p(s) ==> q(s),
    ensures
        count_below(p, n) <= count_below(q, n),
    decreases n,
{
    if n > 0 {
        lemma_count_mono(p, q, (n - 1) as nat);
        assert(p(n - 1) ==> q(n - 1));
    }
}

/// Predicates that differ at one square only have counts that differ by it.
pub proof fn lemma_count_point(p: spec_fn(int) -> bool, q: spec_fn(int) -> bool, at: int, n: nat)
    requires
        0 <= at < n,
        forall|s: int| 0 <= s < n && s != at ==> #[trigger] p(s) == q(s),
    ensures
        count_below(q, n) == count_below(p, n) - (if p(at) {
            1int
        } else {
            0int
        }) + (if q(at) {
            1int
        } else {
            0int
        }),
    decreases n,
{
    if at == n - 1 {
        lemma_count_ext(p, q, (n - 1) as nat);
    } else {
        lemma_count_point(p, q, at, (n - 1) as nat);
        assert(p(n - 1) == q(n - 1));
    }
}

/// What is listed counts no more than the list is long.
pub proof fn lemma_count_listed(p: spec_fn(int) -> bool, l: Seq<int>)
    requires
        forall|s: int| 0 <= s < 64 && #[trigger] p(s) ==> l.contains(s),
    ensures
        count_squares(p) <= l.len(),
    decreases l.len(),
{
    if l.len() == 0 {
        assert forall|s: int| 0 <= s < 64 implies !#[trigger] p(s) by {
            if p(s) {
                assert(l.contains(s));
            }
        }
        lemma_count_gap(p, 0, 64);
    } else {
        let at = l.last();
        let q = |s: int| p(s) && s != at;
        assert forall|s: int| 0 <= s < 64 && #[trigger] q(s) implies l.drop_last().contains(s) by {
            let i = choose|i: int| 0 <= i < l.len() && l[i] == s;
            assert(l.drop_last()[i] == s);
        }
        lemma_count_listed(q, l.drop_last());
        if 0 <= at < 64 {
            lemma_count_point(q, p, at, 64);
        } else {
            lemma_count_ext(p, q, 64);
        }
    }
}

/// A union counts no more than its parts together.
pub proof fn lemma_count_union(
    p: spec_fn(int) -> bool,
    q: spec_fn(int) -> bool,
    r: spec_fn(int) -> bool,
    n: nat,
)
    requires
        forall|s: int| 0 <= s < n && #[trigger] p(s) ==> q(s) || r(s),
    ensures
        count_below(p, n) <= count_below(q, n) + count_below(r, n),
    decreases n,
{
    if n > 0 {
        lemma_count_union(p, q, r, (n - 1) as nat);
        assert(p(n - 1) ==> q(n - 1) || r(n - 1));
    }
}

/// Disjoint parts of a whole count together no more than the whole.
pub proof fn lemma_count_disjoint(
    p: spec_fn(int) -> bool,
    q: spec_fn(int) -> bool,
    r: spec_fn(int) -> bool,
    n: nat,
)
    requires
        forall|s: int| 0 <= s < n && #[trigger] q(s) ==> p(s) && !r(s),
        forall|s: int| 0 <= s < n && #[trigger] r(s) ==> p(s),
    ensures
        count_below(q, n) + count_below(r, n) <= count_below(p, n),
    decreases n,
{
    if n > 0 {
        lemma_count_disjoint(p, q, r, (n - 1) as nat);
        assert(q(n - 1) ==> p(n - 1) && !r(n - 1));
        assert(r(n - 1) ==> p(n - 1));
    }
}

/// Squares of value zero add nothing to the sum.
pub proof fn lemma_sum_gap(f: spec_fn(int) -> int, lo: nat, hi: nat)
    requires
        lo <= hi,
        forall|s: int| lo <= s < hi ==> #[trigger] f(s) == 0,
    ensures
        sum_below(f, hi) == sum_below(f, lo),
    decreases hi,
{
    if lo < hi {
        lemma_sum_gap(f, lo, (hi - 1) as nat);
        assert(f(hi - 1) == 0);
    }
}

/// A sum of bounded values is bounded.
pub proof fn lemma_sum_bounds(f: spec_fn(int) -> int, b: int, n: nat)
    requires
        forall|s: int| 0 <= s < n ==> -b <= #[trigger] f(s) <= b,
    ensures
        -b * n <= sum_below(f, n) <= b * n,
    decreases n,
{
    if n > 0 {
        lemma_sum_bounds(f, b, (n - 1) as nat);
        assert(-b <= f(n - 1) <= b);
        assert(b * n == b * (n - 1) + b) by (nonlinear_arith);
        assert(-b * n == -b * (n - 1) - b) by (nonlinear_arith);
    } else {
        assert(b * 0 == 0 && -b * 0 == 0) by (nonlinear_arith);
    }
}

/// A count is a sum of ones.
pub proof fn lemma_count_is_sum(p: spec_fn(int) -> bool, n: nat)
    ensures
        count_below(p, n) == sum_below(
            |s: int|
                if p(s) {
                    1int
                } else {
                    0int
                },
            n,
        ),
    decreases n,
{
    if n > 0 {
        lemma_count_is_sum(p, (n - 1) as nat);
    }
}

/// Where at most one square satisfies `p`, any two that do are the same.
pub proof fn lemma_count_unique(p: spec_fn(int) -> bool, a: int, b: int)
    requires
        count_squares(p) <= 1,
        0 <= a < 64,
        0 <= b < 64,
        p(a),
        p(b),
    ensures
        a == b,
{
    if a != b {
        let q = |s: int| p(s) && s != a;
        let r = |s: int| q(s) && s != b;
        lemma_count_point(q, p, a, 64);
        lemma_count_point(r, q, b, 64);
        lemma_count_bounds(r, 64);
    }
}

/// What `first_from` finds satisfies `p`, and when it finds nothing there is nothing.
pub proof fn lemma_first_from(p: spec_fn(int) -> bool, n: int)
    requires
        0 <= n <= 64,
    ensures
        first_from(p, n) matches Some(t) ==> n <= t < 64 && p(t) && forall|s: int|
            n <= s < t ==> !#[trigger] p(s),
        first_from(p, n) is None ==> forall|s: int| n <= s < 64 ==> !#[trigger] p(s),
    decreases 64 - n,
{
    if n < 64 && !p(n) {
        lemma_first_from(p, n + 1);
    }
}

} // verus!
