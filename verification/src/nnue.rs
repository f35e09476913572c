//! The evaluation network: its shape, its file format and its inputs.
//!
//! Topology: `768 -> 256` per perspective (weights shared) -> concatenate to 512
//! -> `32` -> `32` -> `1`. ClippedReLU throughout. ~200k parameters.
//!
//! **No incremental accumulator updates.** The usual NNUE efficiency argument is
//! that a chess move changes one or two features, so you patch the accumulator.
//! Here a single blast changes up to ten features at once, and captures are
//! exactly the nodes quiescence spends its time in.
//!
//! **No ply-count input.** The ply cap is handled by `Position::result`
//! adjudicating at the horizon, so the network never needs to know the ply.
//!
//! Parameters are single-precision floats, kept here as their bit patterns: nothing in
//! this module computes with them.

use vstd::prelude::*;
use vstd::string::*;
use crate::bits;
use crate::bytes;
use crate::bytes::{byte_at, read_u32};
use crate::position::Position;
use crate::rules;
use crate::rules::Game;
use crate::text;
use crate::text::push_decimal;
use crate::types;
use crate::types::{Color, Man, PieceType, piece_color, piece_type_of};

verus! {

broadcast use {
    crate::bits::group_bits,
    crate::types::lemma_man_of_code,
    crate::types::lemma_man_code_of,
};

/// 12 piece types x 64 squares.
pub const NUM_FEATURES: usize = 768;

/// Largest hidden layer there is room for.
pub const MAX_HL: usize = 256;

/// Hidden layer per perspective for a freshly built network. The actual width is
/// read from the file header, so one binary can load and compare networks of
/// different sizes — which is the only way to find out how wide this variant
/// actually needs.
pub const DEFAULT_HL: usize = 256;

pub const L1: usize = 32;

pub const L2: usize = 32;

/// "BSNN", little-endian.
pub const MAGIC: u32 = 0x4e_4e_53_42;

pub const VERSION: u32 = 1;

// ---------------------------------------------------------------------------
// Inputs
// ---------------------------------------------------------------------------

/// The feature that a piece on a square switches on, seen by `perspective`.
pub open spec fn feature_of(perspective: Color, m: Man, square: int) -> int {
    ((if m.0 == perspective {
        0int
    } else {
        1int
    }) * 6 + m.1.code()) * 64 + square
}

/// Feature index for one piece, from `perspective`'s point of view.
///
/// The relative colour bit is all that is needed to canonicalise — there is no
/// board flip, because no piece in this variant has a forward direction.
pub fn feature_index(
    perspective: Color,
    piece_color: Color,
    pt: PieceType,
    square: usize,
) -> (f: usize)
    requires
        square + 704 <= usize::MAX,
    ensures
        f == feature_of(perspective, (piece_color, pt), square as int),
        square < 64 ==> f < 768,
{
    let relative: usize = if piece_color == perspective {
        0
    } else {
        1
    };
    (relative * 6 + pt.index()) * 64 + square
}

/// Features are in range, and no two of them coincide.
pub proof fn law_features_are_distinct(perspective: Color, m: Man, s: int, n: Man, t: int)
    requires
        0 <= s < 64,
        0 <= t < 64,
    ensures
        0 <= feature_of(perspective, m, s) < 768,
        feature_of(perspective, m, s) == feature_of(perspective, n, t) ==> m == n && s == t,
{
}

/// What is ours to one side is theirs to the other, and that is the only difference.
pub proof fn law_perspectives_mirror_each_other(m: Man, s: int)
    ensures
        feature_of(m.0.other(), m, s) == feature_of(m.0, m, s) + 384,
        feature_of(m.0, m, s) == feature_of(m.0.other(), (m.0.other(), m.1), s),
{
}

/// In numbers: own pieces come before the enemy's, pawns before knights, bishops, rooks,
/// queens and kings, and a1 before b1 and so on up to h8.
pub proof fn law_feature_numbers(perspective: Color, c: Color, s: int)
    ensures
        ({
            let base = if c == perspective {
                s
            } else {
                s + 384
            };
            &&& feature_of(perspective, (c, PieceType::Pawn), s) == base
            &&& feature_of(perspective, (c, PieceType::Knight), s) == base + 64
            &&& feature_of(perspective, (c, PieceType::Bishop), s) == base + 128
            &&& feature_of(perspective, (c, PieceType::Rook), s) == base + 192
            &&& feature_of(perspective, (c, PieceType::Queen), s) == base + 256
            &&& feature_of(perspective, (c, PieceType::King), s) == base + 320
        }),
{
}

/// The squares on which a piece stands, ascending.
pub open spec fn squares_of(g: Game, m: Man) -> Seq<int> {
    bits::list_squares(|s: int| rules::stands(g, m, s))
}

/// The features that piece `m` switches on, for White and for Black, square by square.
pub open spec fn man_features(g: Game, m: Man) -> Seq<(usize, usize)> {
    Seq::new(
        squares_of(g, m).len(),
        |i: int|
            (
                feature_of(Color::White, m, squares_of(g, m)[i]) as usize,
                feature_of(Color::Black, m, squares_of(g, m)[i]) as usize,
            ),
    )
}

/// The features that the pieces below index `p` switch on.
pub open spec fn features_below(g: Game, p: int) -> Seq<(usize, usize)>
    decreases p,
{
    if p <= 0 {
        Seq::empty()
    } else {
        features_below(g, p - 1) + man_features(g, types::man_of(p - 1))
    }
}

/// The features that a position switches on, for White and for Black, in the order in
/// which their columns are added up.
pub fn active_features(pos: &Position) -> (v: Vec<(usize, usize)>)
    requires
        pos.wf(),
    ensures
        v@ == features_below(pos@, 12),
{
    let ghost g = pos@;
    let mut v: Vec<(usize, usize)> = Vec::new();
    let mut p: usize = 0;
    while p < 12
        invariant
            pos.wf(),
            g == pos@,
            p <= 12,
            v@ == features_below(g, p as int),
        decreases 12 - p,
    {
        let pc = piece_color(p);
        let pt = piece_type_of(p);
        // The two perspectives differ only in the relative-colour bit, so the
        // feature indices are a fixed distance apart — no need to recompute.
        let fw: usize = feature_index(Color::White, pc, pt, 0);
        let fb: usize = feature_index(Color::Black, pc, pt, 0);
        let ghost m = types::man_of(p as int);
        let ghost q = |s: int| rules::stands(g, m, s);
        let ghost before = v@;
        let all: u64 = pos.bb_of(pc, pt);
        let mut it = types::bits(all);
        let ghost mut seen: int = 0;
        let ghost mut done: Seq<int> = Seq::empty();
        loop
            invariant
                p < 12,
                g == pos@,
                m == types::man_of(p as int),
                fw == feature_of(Color::White, m, 0),
                fb == feature_of(Color::Black, m, 0),
                fw < 768,
                fb < 768,
                q == (|s: int| rules::stands(g, m, s)),
                forall|s: int|
                    #![trigger bits::bit(all, s)]
                    #![trigger rules::stands(g, m, s)]
                    bits::bit(all, s) <==> rules::stands(g, m, s),
                0 <= seen <= 64,
                forall|x: int| #[trigger] bits::bit(it.0, x) <==> bits::bit(all, x) && x >= seen,
                done == bits::list_below(q, seen as nat),
                v@.len() == before.len() + done.len(),
                forall|i: int| 0 <= i < before.len() ==> v@[i] == #[trigger] before[i],
                forall|i: int|
                    0 <= i < done.len() ==> v@[before.len() + i] == (
                        feature_of(Color::White, m, #[trigger] done[i]) as usize,
                        feature_of(Color::Black, m, done[i]) as usize,
                    ),
            ensures
                it.0 == 0,
            decreases it.0,
        {
            let ghost rest = it.0;
            match it.next() {
                None => break,
                Some(s) => {
                    proof {
                        assert(bits::bit(rest, s as int));
                        assert forall|t: int| seen <= t < s implies !#[trigger] q(t) by {
                            if q(t) {
                                assert(bits::bit(all, t));
                                assert(bits::bit(rest, t));
                            }
                        }
                        bits::lemma_list_gap(q, seen as nat, s as nat);
                        assert(bits::bit(all, s as int));
                        assert(q(s as int));
                    }
                    v.push((fw + s, fb + s));
                    proof {
                        done = done.push(s as int);
                        seen = s + 1;
                    }
                },
            }
        }
        proof {
            assert forall|t: int| seen <= t < 64 implies !#[trigger] q(t) by {
                if q(t) {
                    assert(bits::bit(all, t));
                    assert(bits::bit(it.0, t));
                }
            }
            bits::lemma_list_gap(q, seen as nat, 64);
            assert(v@ =~= before + man_features(g, m));
        }
        p += 1;
    }
    v
}

// ---------------------------------------------------------------------------
// The network
// ---------------------------------------------------------------------------

pub struct Network {
    /// Hidden layer width per perspective, from the file header.
    pub hl: usize,
    /// Feature transformer, row-major by feature so one feature is a contiguous
    /// span of `hl` parameters. `NUM_FEATURES * hl` of them.
    pub ft_weight: Vec<u32>,
    /// `hl` parameters.
    pub ft_bias: Vec<u32>,
    /// `L1 * (2 * hl)` parameters.
    pub w1: Vec<u32>,
    /// `L1` parameters.
    pub b1: Vec<u32>,
    /// `L2 * L1` parameters.
    pub w2: Vec<u32>,
    /// `L2` parameters.
    pub b2: Vec<u32>,
    /// `L2` parameters.
    pub w3: Vec<u32>,
    /// One parameter.
    pub b3: Vec<u32>,
}

/// The feature pairs of the pieces below index `p` are those of the squares they stand on.
proof fn lemma_features(g: Game, p: int, x: (usize, usize))
    requires
        0 <= p <= 12,
    ensures
        features_below(g, p).contains(x) <==> exists|m: Man, s: int|
            #![trigger rules::stands(g, m, s)]
            rules::stands(g, m, s) && types::man_code(m) < p && x == (
                feature_of(Color::White, m, s) as usize,
                feature_of(Color::Black, m, s) as usize,
            ),
        features_below(g, p).len() == bits::count_squares(
            |s: int| g.board[s] matches Some(m) && types::man_code(m) < p,
        ),
    decreases p,
{
    let below = |q: int| |s: int| g.board[s] matches Some(m) && types::man_code(m) < q;
    if p > 0 {
        lemma_features(g, p - 1, x);
        let m = types::man_of(p - 1);
        assert(types::man_code(m) == p - 1);
        let l = squares_of(g, m);
        let f = man_features(g, m);
        let at = |s: int| rules::stands(g, m, s);
        bits::lemma_list_members(at, 64);
        let (a, b) = (features_below(g, p - 1), features_below(g, p));
        assert(b =~= a + f);
        if b.contains(x) {
            let i = choose|i: int| 0 <= i < b.len() && b[i] == x;
            if i < a.len() {
                assert(a[i] == x);
                assert(a.contains(x));
                let (n, s) = choose|n: Man, s: int|
                    #![trigger rules::stands(g, n, s)]
                    rules::stands(g, n, s) && types::man_code(n) < p - 1 && x == (
                        feature_of(Color::White, n, s) as usize,
                        feature_of(Color::Black, n, s) as usize,
                    );
                assert(rules::stands(g, n, s));
            } else {
                let s = l[i - a.len()];
                assert(l.contains(s));
                assert(at(s));
                assert(rules::stands(g, m, s));
            }
        }
        if exists|n: Man, s: int|
            #![trigger rules::stands(g, n, s)]
            rules::stands(g, n, s) && types::man_code(n) < p && x == (
                feature_of(Color::White, n, s) as usize,
                feature_of(Color::Black, n, s) as usize,
            ) {
            let (n, s) = choose|n: Man, s: int|
                #![trigger rules::stands(g, n, s)]
                rules::stands(g, n, s) && types::man_code(n) < p && x == (
                    feature_of(Color::White, n, s) as usize,
                    feature_of(Color::Black, n, s) as usize,
                );
            if types::man_code(n) < p - 1 {
                assert(a.contains(x));
                let i = choose|i: int| 0 <= i < a.len() && a[i] == x;
                assert(b[i] == x);
            } else {
                assert(types::man_of(types::man_code(n)) == n);
                assert(n == m);
                assert(at(s));
                assert(l.contains(s));
                let j = choose|j: int| 0 <= j < l.len() && l[j] == s;
                assert(b[a.len() + j] == x);
            }
        }
        lemma_count_parts(
            |s: int| g.board[s] matches Some(n) && types::man_code(n) < p,
            |s: int| g.board[s] matches Some(n) && types::man_code(n) < p - 1,
            at,
            g,
            m,
            p,
            64,
        );
    } else {
        bits::lemma_count_gap(|s: int| g.board[s] matches Some(m) && types::man_code(m) < p, 0, 64);
    }
}

proof fn lemma_count_parts(
    all: spec_fn(int) -> bool,
    some: spec_fn(int) -> bool,
    rest: spec_fn(int) -> bool,
    g: Game,
    m: Man,
    p: int,
    n: nat,
)
    requires
        0 < p <= 12,
        m == types::man_of(p - 1),
        n <= 64,
        all == (|s: int| g.board[s] matches Some(k) && types::man_code(k) < p),
        some == (|s: int| g.board[s] matches Some(k) && types::man_code(k) < p - 1),
        rest == (|s: int| rules::stands(g, m, s)),
    ensures
        bits::count_below(all, n) == bits::count_below(some, n) + bits::count_below(rest, n),
    decreases n,
{
    if n > 0 {
        lemma_count_parts(all, some, rest, g, m, p, (n - 1) as nat);
        let s = n - 1;
        if let Some(k) = g.board[s] {
            assert(types::man_of(types::man_code(k)) == k);
            assert(types::man_code(m) == p - 1);
        }
    }
}

/// Every piece on the board switches on its pair of features, and nothing else does: there
/// are as many pairs as pieces.
pub proof fn law_every_piece_is_a_pair_of_features(g: Game, m: Man, s: int)
    requires
        rules::stands(g, m, s),
    ensures
        features_below(g, 12).contains(
            (feature_of(Color::White, m, s) as usize, feature_of(Color::Black, m, s) as usize),
        ),
        features_below(g, 12).len() == bits::count_squares(|x: int| g.board[x] is Some),
{
    let x = (feature_of(Color::White, m, s) as usize, feature_of(Color::Black, m, s) as usize);
    lemma_features(g, 12, x);
    assert(types::man_code(m) < 12);
    assert(rules::stands(g, m, s));
    let p = |y: int| g.board[y] matches Some(n) && types::man_code(n) < 12;
    let q = |y: int| g.board[y] is Some;
    bits::lemma_count_ext(p, q, 64);
}

/// A width that a network can have.
pub open spec fn width(hl: int) -> bool {
    0 <= hl <= 256 && hl % 8 == 0
}

/// Number of parameters of a network of width `hl`.
pub open spec fn parameters(hl: int) -> int {
    768 * hl + hl + 64 * hl + 32 + 1024 + 32 + 32 + 1
}

impl Network {
    /// Every layer has the size that the width asks for.
    pub open spec fn wf(self) -> bool {
        &&& width(self.hl as int)
        &&& self.ft_weight@.len() == 768 * self.hl
        &&& self.ft_bias@.len() == self.hl
        &&& self.w1@.len() == 64 * self.hl
        &&& self.b1@.len() == 32
        &&& self.w2@.len() == 1024
        &&& self.b2@.len() == 32
        &&& self.w3@.len() == 32
        &&& self.b3@.len() == 1
    }

    /// All parameters, layer by layer.
    pub open spec fn params(self) -> Seq<u32> {
        self.ft_weight@ + self.ft_bias@ + self.w1@ + self.b1@ + self.w2@ + self.b2@ + self.w3@
            + self.b3@
    }

    pub fn zeroed() -> (n: Network)
        ensures
            n.wf(),
            n.hl == 256,
            forall|i: int| 0 <= i < n.params().len() ==> #[trigger] n.params()[i] == 0,
    {
        Network::zeroed_with(DEFAULT_HL)
    }

    /// A network of width `hl` whose parameters are all zero.
    pub fn zeroed_with(hl: usize) -> (n: Network)
        requires
            width(hl as int),
        ensures
            n.wf(),
            n.hl == hl,
            forall|i: int| 0 <= i < n.params().len() ==> #[trigger] n.params()[i] == 0,
    {
        Network {
            hl,
            ft_weight: zeros(768 * hl),
            ft_bias: zeros(hl),
            w1: zeros(64 * hl),
            b1: zeros(L1),
            w2: zeros(L2 * L1),
            b2: zeros(L2),
            w3: zeros(L2),
            b3: zeros(1),
        }
    }

    pub fn parameter_count(&self) -> (n: usize)
        requires
            self.params().len() <= usize::MAX,
        ensures
            n == self.params().len(),
            self.wf() ==> n == parameters(self.hl as int),
    {
        self.ft_weight.len() + self.ft_bias.len() + self.w1.len() + self.b1.len() + self.w2.len()
            + self.b2.len() + self.w3.len() + self.b3.len()
    }
}

fn zeros(n: usize) -> (v: Vec<u32>)
    ensures
        v@.len() == n,
        forall|i: int| 0 <= i < n ==> #[trigger] v@[i] == 0,
{
    let mut v: Vec<u32> = Vec::new();
    let mut i: usize = 0;
    while i < n
        invariant
            i <= n,
            v@.len() == i,
            forall|j: int| 0 <= j < i ==> #[trigger] v@[j] == 0,
        decreases n - i,
    {
        v.push(0);
        i += 1;
    }
    v
}

// ---------------------------------------------------------------------------
// Serialisation
// ---------------------------------------------------------------------------

/// The words at the head of a network file.
pub open spec fn header(hl: int) -> Seq<u32> {
    seq![MAGIC, VERSION, 768u32, hl as u32, 32u32, 32u32]
}

/// The bytes of a row of words.
pub open spec fn flat(w: Seq<u32>) -> Seq<u8> {
    Seq::new(4 * w.len(), |i: int| bytes::byte_of(w[i / 4] as u64, i % 4))
}

/// The first `n` words of a file.
pub open spec fn file_words(b: Seq<u8>, n: int) -> Seq<u32> {
    Seq::new(n as nat, |i: int| bytes::u32_from(b, 4 * i))
}

/// What is wrong with a network file, if anything.
pub open spec fn file_complaint(b: Seq<u8>) -> Option<Seq<char>> {
    let hl = bytes::u32_from(b, 12) as int;
    if b.len() < 24 {
        Some("network file too short"@)
    } else if bytes::u32_from(b, 0) != MAGIC {
        Some("not a bschess network file"@)
    } else if bytes::u32_from(b, 4) != VERSION {
        Some("unsupported network version"@)
    } else if bytes::u32_from(b, 8) != 768 || bytes::u32_from(b, 16) != 32 || bytes::u32_from(b, 20)
        != 32 {
        Some(
            "network shape "@ + text::decimal(bytes::u32_from(b, 8) as nat) + "x"@ + text::decimal(
                hl as nat,
            ) + "x"@ + text::decimal(bytes::u32_from(b, 16) as nat) + "x"@ + text::decimal(
                bytes::u32_from(b, 20) as nat,
            ) + " does not match the compiled 768x*x32x32"@,
        )
    } else if hl == 0 || !width(hl) {
        Some(
            "hidden layer "@ + text::decimal(hl as nat)
                + " must be a non-zero multiple of 8, at most 256"@,
        )
    } else if b.len() < 24 + 4 * parameters(hl) {
        Some("network file truncated"@)
    } else {
        None
    }
}

fn shape_error(nf: u32, hl: u32, l1: u32, l2: u32) -> (e: String)
    ensures
        e@ == "network shape "@ + text::decimal(nf as nat) + "x"@ + text::decimal(hl as nat) + "x"@
            + text::decimal(l1 as nat) + "x"@ + text::decimal(l2 as nat)
            + " does not match the compiled 768x*x32x32"@,
{
    let mut e: String = String::new();
    e.append("network shape ");
    push_decimal(&mut e, nf as u128);
    e.append("x");
    push_decimal(&mut e, hl as u128);
    e.append("x");
    push_decimal(&mut e, l1 as u128);
    e.append("x");
    push_decimal(&mut e, l2 as u128);
    e.append(" does not match the compiled 768x*x32x32");
    assert(e@ =~= "network shape "@ + text::decimal(nf as nat) + "x"@ + text::decimal(hl as nat)
        + "x"@ + text::decimal(l1 as nat) + "x"@ + text::decimal(l2 as nat)
        + " does not match the compiled 768x*x32x32"@);
    e
}

fn width_error(hl: u32) -> (e: String)
    ensures
        e@ == "hidden layer "@ + text::decimal(hl as nat)
            + " must be a non-zero multiple of 8, at most 256"@,
{
    let mut e: String = String::new();
    e.append("hidden layer ");
    push_decimal(&mut e, hl as u128);
    e.append(" must be a non-zero multiple of 8, at most 256");
    assert(e@ =~= "hidden layer "@ + text::decimal(hl as nat)
        + " must be a non-zero multiple of 8, at most 256"@);
    e
}

/// The `n` words of `b` from word `at` on.
fn read_words(b: &[u8], at: usize, n: usize) -> (v: Vec<u32>)
    requires
        4 * (at + n) <= b@.len(),
        4 * (at + n) <= usize::MAX,
    ensures
        v@ == Seq::new(n as nat, |i: int| bytes::u32_from(b@, 4 * (at + i))),
{
    let mut v: Vec<u32> = Vec::new();
    let mut i: usize = 0;
    while i < n
        invariant
            4 * (at + n) <= b@.len(),
            4 * (at + n) <= usize::MAX,
            i <= n,
            v@.len() == i,
            forall|j: int| 0 <= j < i ==> #[trigger] v@[j] == bytes::u32_from(b@, 4 * (at + j)),
        decreases n - i,
    {
        v.push(read_u32(b, 4 * (at + i)));
        i += 1;
    }
    assert(v@ =~= Seq::new(n as nat, |i: int| bytes::u32_from(b@, 4 * (at + i))));
    v
}

/// Appends the bytes of each word of `w`.
fn push_words(out: &mut Vec<u8>, w: &Vec<u32>)
    ensures
        final(out)@ == old(out)@ + flat(w@),
{
    let mut i: usize = 0;
    proof {
        assert(flat(w@.take(0)) =~= Seq::<u8>::empty());
        assert(out@ =~= old(out)@ + flat(w@.take(0)));
    }
    while i < w.len()
        invariant
            i <= w.len(),
            out@ == old(out)@ + flat(w@.take(i as int)),
        decreases w.len() - i,
    {
        push_word(out, w[i]);
        proof {
            assert(w@.take(i + 1) =~= w@.take(i as int).push(w@[i as int]));
            lemma_flat_push(w@.take(i as int), w@[i as int]);
            assert(out@ =~= old(out)@ + flat(w@.take(i + 1)));
        }
        i += 1;
    }
    assert(w@.take(w.len() as int) =~= w@);
}

fn push_word(out: &mut Vec<u8>, x: u32)
    ensures
        final(out)@ == old(out)@ + flat(seq![x]),
{
    out.push(byte_at(x as u64, 0));
    out.push(byte_at(x as u64, 1));
    out.push(byte_at(x as u64, 2));
    out.push(byte_at(x as u64, 3));
    assert(out@ =~= old(out)@ + flat(seq![x]));
}

proof fn lemma_flat_push(w: Seq<u32>, x: u32)
    ensures
        flat(w.push(x)) == flat(w) + flat(seq![x]),
{
    assert(flat(w.push(x)) =~= flat(w) + flat(seq![x]));
}

proof fn lemma_flat_add(a: Seq<u32>, b: Seq<u32>)
    ensures
        flat(a + b) == flat(a) + flat(b),
{
    let x = flat(a + b);
    let y = flat(a) + flat(b);
    assert forall|i: int| 0 <= i < x.len() implies x[i] == y[i] by {
        if i >= 4 * a.len() {
            let j = i - 4 * a.len();
            assert(i / 4 == a.len() + j / 4 && i % 4 == j % 4);
        }
    }
    assert(x =~= y);
}

impl Network {
    /// The contents of a network file.
    pub fn to_bytes(&self) -> (out: Vec<u8>)
        ensures
            out@ == flat(header(self.hl as int) + self.params()),
    {
        let mut out: Vec<u8> = Vec::new();
        let mut head: Vec<u32> = Vec::new();
        head.push(MAGIC);
        head.push(VERSION);
        head.push(768);
        head.push(self.hl as u32);
        head.push(32);
        head.push(32);
        let ghost h = header(self.hl as int);
        assert(head@ =~= h);
        push_words(&mut out, &head);
        assert(out@ =~= flat(h));
        push_words(&mut out, &self.ft_weight);
        push_words(&mut out, &self.ft_bias);
        push_words(&mut out, &self.w1);
        push_words(&mut out, &self.b1);
        push_words(&mut out, &self.w2);
        push_words(&mut out, &self.b2);
        push_words(&mut out, &self.w3);
        push_words(&mut out, &self.b3);
        proof {
            let (a, b, c, d) = (self.ft_weight@, self.ft_bias@, self.w1@, self.b1@);
            let (e, f, g, i) = (self.w2@, self.b2@, self.w3@, self.b3@);
            lemma_flat_add(h, a);
            lemma_flat_add(h + a, b);
            lemma_flat_add(h + a + b, c);
            lemma_flat_add(h + a + b + c, d);
            lemma_flat_add(h + a + b + c + d, e);
            lemma_flat_add(h + a + b + c + d + e, f);
            lemma_flat_add(h + a + b + c + d + e + f, g);
            lemma_flat_add(h + a + b + c + d + e + f + g, i);
            assert(h + self.params() =~= h + a + b + c + d + e + f + g + i);
        }
        out
    }

    /// Reads the contents of a network file. What follows the last parameter is ignored.
    pub fn from_bytes(buf: &[u8]) -> (r: Result<Network, String>)
        ensures
            r is Ok <==> file_complaint(buf@) is None,
            r matches Ok(n) ==> {
                &&& n.wf()
                &&& n.hl == bytes::u32_from(buf@, 12)
                &&& header(n.hl as int) + n.params() == file_words(
                    buf@,
                    6 + parameters(n.hl as int),
                )
            },
            r matches Err(e) ==> file_complaint(buf@) == Some(e@),
    {
        if buf.len() < 24 {
            return Err("network file too short".to_owned());
        }
        if read_u32(buf, 0) != MAGIC {
            return Err("not a bschess network file".to_owned());
        }
        if read_u32(buf, 4) != VERSION {
            return Err("unsupported network version".to_owned());
        }
        let nf: u32 = read_u32(buf, 8);
        let hl: u32 = read_u32(buf, 12);
        let l1: u32 = read_u32(buf, 16);
        let l2: u32 = read_u32(buf, 20);
        // The hidden layer width is whatever the file says, so networks of
        // different sizes can be loaded and played against each other.
        if nf != 768 || l1 != 32 || l2 != 32 {
            return Err(shape_error(nf, hl, l1, l2));
        }
        if hl == 0 || hl > 256 || hl % 8 != 0 {
            return Err(width_error(hl));
        }
        let h: usize = hl as usize;
        if buf.len() < 24 + 4 * (768 * h + h + 64 * h + 1121) {
            return Err("network file truncated".to_owned());
        }
        let net = Network {
            hl: h,
            ft_weight: read_words(buf, 6, 768 * h),
            ft_bias: read_words(buf, 6 + 768 * h, h),
            w1: read_words(buf, 6 + 769 * h, 64 * h),
            b1: read_words(buf, 6 + 833 * h, 32),
            w2: read_words(buf, 38 + 833 * h, 1024),
            b2: read_words(buf, 1062 + 833 * h, 32),
            w3: read_words(buf, 1094 + 833 * h, 32),
            b3: read_words(buf, 1126 + 833 * h, 1),
        };
        proof {
            let x = header(h as int) + net.params();
            let y = file_words(buf@, 6 + parameters(h as int));
            assert(x.len() == y.len());
            assert forall|i: int| 0 <= i < x.len() implies x[i] == y[i] by {
                if i < 6 {
                    assert(header(h as int)[i] == y[i]);
                }
            }
            assert(x =~= y);
        }
        Ok(net)
    }
}

/// Networks with the same width and the same parameters are the same layer by layer.
pub open spec fn same_network(a: Network, b: Network) -> bool {
    &&& a.hl == b.hl
    &&& a.ft_weight@ == b.ft_weight@
    &&& a.ft_bias@ == b.ft_bias@
    &&& a.w1@ == b.w1@
    &&& a.b1@ == b.b1@
    &&& a.w2@ == b.w2@
    &&& a.b2@ == b.b2@
    &&& a.w3@ == b.w3@
    &&& a.b3@ == b.b3@
}

/// Where each layer stands among the words of a file.
proof fn lemma_layers(n: Network)
    requires
        n.wf(),
    ensures
        ({
            let p = n.params();
            let h = n.hl as int;
            &&& p.len() == parameters(h)
            &&& n.ft_weight@ == p.subrange(0, 768 * h)
            &&& n.ft_bias@ == p.subrange(768 * h, 769 * h)
            &&& n.w1@ == p.subrange(769 * h, 833 * h)
            &&& n.b1@ == p.subrange(833 * h, 32 + 833 * h)
            &&& n.w2@ == p.subrange(32 + 833 * h, 1056 + 833 * h)
            &&& n.b2@ == p.subrange(1056 + 833 * h, 1088 + 833 * h)
            &&& n.w3@ == p.subrange(1088 + 833 * h, 1120 + 833 * h)
            &&& n.b3@ == p.subrange(1120 + 833 * h, 1121 + 833 * h)
        }),
{
    let p = n.params();
    let h = n.hl as int;
    assert(n.ft_weight@ =~= p.subrange(0, 768 * h));
    assert(n.ft_bias@ =~= p.subrange(768 * h, 769 * h));
    assert(n.w1@ =~= p.subrange(769 * h, 833 * h));
    assert(n.b1@ =~= p.subrange(833 * h, 32 + 833 * h));
    assert(n.w2@ =~= p.subrange(32 + 833 * h, 1056 + 833 * h));
    assert(n.b2@ =~= p.subrange(1056 + 833 * h, 1088 + 833 * h));
    assert(n.w3@ =~= p.subrange(1088 + 833 * h, 1120 + 833 * h));
    assert(n.b3@ =~= p.subrange(1120 + 833 * h, 1121 + 833 * h));
}

proof fn lemma_header(w: Seq<u32>, hl: int, p: Seq<u32>)
    requires
        w == header(hl) + p,
    ensures
        w[0] == MAGIC,
        w[1] == VERSION,
        w[2] == 768,
        w[3] == hl as u32,
        w[4] == 32,
        w[5] == 32,
        w.subrange(6, w.len() as int) == p,
{
    assert(w.subrange(6, w.len() as int) =~= p);
}

/// A network written to a file is read back as it was.
pub proof fn law_network_files_round_trip(n: Network, b: Seq<u8>, back: Network)
    requires
        n.wf(),
        n.hl > 0,
        b == flat(header(n.hl as int) + n.params()),
        back.wf(),
        back.hl == bytes::u32_from(b, 12),
        header(back.hl as int) + back.params() == file_words(b, 6 + parameters(back.hl as int)),
    ensures
        same_network(n, back),
{
    lemma_layers(n);
    lemma_layers(back);
    lemma_written_words(n, b);
    let w = header(n.hl as int) + n.params();
    let x = header(back.hl as int) + back.params();
    lemma_header(w, n.hl as int, n.params());
    lemma_header(x, back.hl as int, back.params());
    assert(file_words(b, w.len() as int)[3] == bytes::u32_from(b, 12));
    assert(back.hl == n.hl);
    assert(x == w);
}

/// The words of the file behind its head are the parameters.
proof fn lemma_word_at(n: Network, b: Seq<u8>, k: int)
    requires
        b == flat(header(n.hl as int) + n.params()),
        0 <= k < 6 + n.params().len(),
    ensures
        k < 6 ==> bytes::u32_from(b, 4 * k) == header(n.hl as int)[k],
        k >= 6 ==> bytes::u32_from(b, 4 * k) == n.params()[k - 6],
{
    lemma_written_words(n, b);
    let y = file_words(b, 6 + n.params().len() as int);
    assert(y[k] == bytes::u32_from(b, 4 * k));
}

/// A network file in words of four bytes, lowest first, starts with "BSNN", the version 1,
/// 768 inputs, the width, 32 and 32.
pub proof fn law_network_file_head(n: Network, b: Seq<u8>)
    requires
        n.hl <= u32::MAX,
        b == flat(header(n.hl as int) + n.params()),
    ensures
        bytes::u32_from(b, 0) == 0x4e4e5342,
        bytes::u32_from(b, 4) == 1,
        bytes::u32_from(b, 8) == 768,
        bytes::u32_from(b, 12) == n.hl,
        bytes::u32_from(b, 16) == 32,
        bytes::u32_from(b, 20) == 32,
{
    lemma_word_at(n, b, 0);
    lemma_word_at(n, b, 1);
    lemma_word_at(n, b, 2);
    lemma_word_at(n, b, 3);
    lemma_word_at(n, b, 4);
    lemma_word_at(n, b, 5);
}

/// Then come the weights and biases of the inputs.
#[verifier::spinoff_prover]
pub proof fn law_network_file_inputs(n: Network, b: Seq<u8>, i: int)
    requires
        n.wf(),
        b == flat(header(n.hl as int) + n.params()),
    ensures
        0 <= i < 768 * n.hl ==> bytes::u32_from(b, 24 + 4 * i) == n.ft_weight@[i],
        0 <= i < n.hl ==> bytes::u32_from(b, 24 + 4 * (768 * n.hl + i)) == n.ft_bias@[i],
{
    let h = n.hl as int;
    if 0 <= i < 768 * h {
        lemma_word_at(n, b, 6 + i);
    }
    if 0 <= i < h {
        lemma_word_at(n, b, 6 + 768 * h + i);
    }
}

/// Then those of the first layer.
#[verifier::spinoff_prover]
pub proof fn law_network_file_first_layer(n: Network, b: Seq<u8>, i: int)
    requires
        n.wf(),
        b == flat(header(n.hl as int) + n.params()),
    ensures
        0 <= i < 64 * n.hl ==> bytes::u32_from(b, 24 + 4 * (769 * n.hl + i)) == n.w1@[i],
        0 <= i < 32 ==> bytes::u32_from(b, 24 + 4 * (833 * n.hl + i)) == n.b1@[i],
{
    let h = n.hl as int;
    if 0 <= i < 64 * h {
        lemma_word_at(n, b, 6 + 769 * h + i);
    }
    if 0 <= i < 32 {
        lemma_word_at(n, b, 6 + 833 * h + i);
    }
}

/// Then those of the second layer and of the output, and that is all.
#[verifier::spinoff_prover]
pub proof fn law_network_file_last_layers(n: Network, b: Seq<u8>, i: int)
    requires
        n.wf(),
        b == flat(header(n.hl as int) + n.params()),
    ensures
        0 <= i < 1024 ==> bytes::u32_from(b, 24 + 4 * (833 * n.hl + 32 + i)) == n.w2@[i],
        0 <= i < 32 ==> bytes::u32_from(b, 24 + 4 * (833 * n.hl + 1056 + i)) == n.b2@[i],
        0 <= i < 32 ==> bytes::u32_from(b, 24 + 4 * (833 * n.hl + 1088 + i)) == n.w3@[i],
        bytes::u32_from(b, 24 + 4 * (833 * n.hl + 1120)) == n.b3@[0],
        b.len() == 24 + 4 * (833 * n.hl + 1121),
{
    let h = n.hl as int;
    if 0 <= i < 1024 {
        lemma_word_at(n, b, 6 + 833 * h + 32 + i);
    }
    if 0 <= i < 32 {
        lemma_word_at(n, b, 6 + 833 * h + 1056 + i);
        lemma_word_at(n, b, 6 + 833 * h + 1088 + i);
    }
    lemma_word_at(n, b, 6 + 833 * h + 1120);
}

/// And a written file is accepted.
#[verifier::spinoff_prover]
pub proof fn law_written_networks_are_accepted(n: Network, b: Seq<u8>)
    requires
        n.wf(),
        n.hl > 0,
        b == flat(header(n.hl as int) + n.params()),
    ensures
        file_complaint(b) is None,
{
    lemma_layers(n);
    lemma_written_words(n, b);
    let w = header(n.hl as int) + n.params();
    lemma_header(w, n.hl as int, n.params());
    let y = file_words(b, w.len() as int);
    assert(y[0] == bytes::u32_from(b, 0));
    assert(y[1] == bytes::u32_from(b, 4));
    assert(y[2] == bytes::u32_from(b, 8));
    assert(y[3] == bytes::u32_from(b, 12));
    assert(y[4] == bytes::u32_from(b, 16));
    assert(y[5] == bytes::u32_from(b, 20));
}

proof fn lemma_written_words(n: Network, b: Seq<u8>)
    requires
        b == flat(header(n.hl as int) + n.params()),
    ensures
        file_words(b, 6 + n.params().len() as int) == header(n.hl as int) + n.params(),
        b.len() == 24 + 4 * n.params().len(),
{
    let w = header(n.hl as int) + n.params();
    let y = file_words(b, w.len() as int);
    assert forall|i: int| 0 <= i < w.len() implies y[i] == w[i] by {
        assert forall|k: int| 0 <= k < 4 implies b[4 * i + k] == #[trigger] bytes::byte_of(
            w[i] as u64,
            k,
        ) by {
            assert((4 * i + k) / 4 == i && (4 * i + k) % 4 == k);
        }
        bytes::lemma_u32_bytes(w[i], b, 4 * i);
    }
    assert(y =~= w);
}

} // verus!
