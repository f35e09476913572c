//! Data for fitting the evaluation weights.
//!
//! The evaluation is linear in its weights, so fitting them is a small logistic
//! regression over the records of self-play. Which records take part, and what each of
//! them says, is decided here in whole numbers; the fit itself is floating point.

use vstd::prelude::*;
use vstd::slice::slice_subrange;
use crate::bits;
use crate::data;
use crate::data::Sample;
use crate::eval;
use crate::eval::{TUNED_WEIGHTS, endgame_scale, eval_feature_counts};
use crate::position::GameResult;
use crate::rules;
use crate::selfplay;
use crate::tables::SplitMix64;
use crate::types::Color;

verus! {

broadcast use crate::bits::group_bits;

/// One position to fit, from White's point of view.
pub struct Example {
    /// The features, of which the first five still have to be scaled.
    pub counts: [i64; 73],
    /// The scale in percent.
    pub scale: i32,
    /// The search score.
    pub score: i32,
    /// How the game ended: +1, 0 or -1.
    pub result: i8,
}

impl Example {
    /// The example says what the record says. The stored score is side-to-move relative,
    /// the stored result is already from White's point of view.
    #[verifier::opaque]
    pub open spec fn tells(self, s: Sample) -> bool {
        let g = s.game();
        &&& forall|i: int|
            0 <= i < 73 ==> #[trigger] self.counts@[i] == eval::feature(g, TUNED_WEIGHTS@, i)
        &&& self.scale == eval::scale(g, TUNED_WEIGHTS@)
        &&& self.score == if g.side == Color::White {
            s.score as int
        } else {
            -s.score
        }
        &&& self.result == s.result
    }
}

/// What an example says of a record is seen from White's side whoever is to move: the
/// result stays as it is recorded, and the score, which is recorded for the side to move,
/// changes its sign when that is Black.
pub proof fn law_examples_are_seen_from_white(e: Example, s: Sample)
    requires
        e.tells(s),
    ensures
        e.result == s.result,
        s.side == 0 ==> e.score == s.score,
        s.side != 0 ==> e.score == -s.score,
{
    reveal(Example::tells);
}

/// An example from a game that White won has result +1, from one that Black won -1, and
/// from a draw 0, whichever side was to move.
pub proof fn law_examples_know_who_won(
    e: Example,
    s: Sample,
    l: selfplay::Lesson,
    result: GameResult,
)
    requires
        e.tells(s),
        selfplay::teaches(s, l, result),
    ensures
        e.result == (match result {
            GameResult::Win(Color::White) => 1int,
            GameResult::Win(Color::Black) => -1,
            GameResult::Draw => 0,
        }),
        -30_000 <= l.score <= 30_000 ==> e.score == (match l.game.side {
            Color::White => l.score,
            Color::Black => -l.score,
        }),
{
    reveal(Example::tells);
}

/// An example describes the position that was recorded: its features are those of the
/// position, and its scale is that of the position under the fitted weights.
pub proof fn law_examples_describe_the_position(
    e: Example,
    s: Sample,
    g: rules::Game,
    score: int,
    quiet: bool,
    i: int,
)
    requires
        e.tells(s),
        g.board.len() == 64,
        0 <= g.ply <= 255,
        (Sample { result: 0, ..s }).records(g, score, quiet),
        bits::popcount(s.occ) <= 32,
        0 <= i < 73,
    ensures
        e.counts@[i] == eval::feature(g, TUNED_WEIGHTS@, i),
        e.scale == eval::scale(g, TUNED_WEIGHTS@),
{
    reveal(Example::tells);
    let plain = Sample { result: 0, ..s };
    data::law_a_record_restores_its_position(plain, g, score, quiet);
    assert(s.game().board =~= plain.game().board);
    assert(s.game() == plain.game());
}

/// A record in a file is read back as it was written, wherever it stands.
pub proof fn law_files_are_read_record_by_record(b: Seq<u8>, i: int, s: Sample)
    requires
        b.subrange(32 * i, 32 * i + 32) == data::encoded(s),
    ensures
        record(b, i) == s,
{
    let c = data::encoded(s);
    data::lemma_decodes(s);
    lemma_read(c, s);
}

/// The record that some bytes stand for.
pub open spec fn read(b: Seq<u8>) -> Sample {
    choose|s: Sample| data::decodes(b, s)
}

/// Record `i` of a file.
pub open spec fn record(b: Seq<u8>, i: int) -> Sample {
    read(b.subrange(32 * i, 32 * i + 32))
}

/// The random numbers take record `i` of `n` when about `sample` are wanted; all are taken
/// when `sample` is 0.
pub open spec fn taken(sample: int, n: int, state: u64) -> bool {
    sample == 0 || selfplay::draw(state, n) < sample
}

/// The state after the decision on one record.
pub open spec fn after_one(sample: int, state: u64) -> u64 {
    if sample == 0 {
        state
    } else {
        selfplay::drawn(state)
    }
}

/// The records among the first `k` of `n` that take part: those that are taken and whose
/// game is still on. Also the state of the random numbers then.
pub open spec fn selected(b: Seq<u8>, sample: int, n: int, state: u64, k: nat) -> (
    Seq<Sample>,
    u64,
)
    decreases k,
{
    if k == 0 {
        (Seq::empty(), state)
    } else {
        let (before, st) = selected(b, sample, n, state, (k - 1) as nat);
        let s = record(b, k - 1);
        (
            if taken(sample, n, st) && rules::outcome(s.game()) is None {
                before.push(s)
            } else {
                before
            },
            after_one(sample, st),
        )
    }
}

/// Where all records are taken, the ones that take part are those whose game is still on,
/// in the order of the file, and no random number is drawn.
pub proof fn law_all_games_in_play_take_part(b: Seq<u8>, n: int, state: u64, k: nat)
    ensures
        selected(b, 0, n, state, k).1 == state,
        selected(b, 0, n, state, k).0 == Seq::new(k, |i: int| record(b, i)).filter(
            |s: Sample| rules::outcome(s.game()) is None,
        ),
    decreases k,
{
    let p = |s: Sample| rules::outcome(s.game()) is None;
    let all = Seq::new(k, |i: int| record(b, i));
    reveal(Seq::filter);
    if k > 0 {
        law_all_games_in_play_take_part(b, n, state, (k - 1) as nat);
        assert(all.drop_last() =~= Seq::new((k - 1) as nat, |i: int| record(b, i)));
    } else {
        assert(all =~= Seq::empty());
        assert(all.filter(p) =~= Seq::empty());
    }
}

/// With a number wanted, a record is taken where a random number below that of all records
/// is below the number wanted: each decision draws one, taken or not.
pub proof fn law_sampling_draws_once_a_record(b: Seq<u8>, sample: int, n: int, state: u64, k: nat)
    requires
        sample > 0,
    ensures
        selected(b, sample, n, state, (k + 1) as nat).1 == selected(
            b,
            sample,
            n,
            state,
            k,
        ).1.wrapping_add(crate::tables::GOLDEN_GAMMA),
        ({
            let (before, st) = selected(b, sample, n, state, k);
            let (after, _) = selected(b, sample, n, state, (k + 1) as nat);
            let x = crate::tables::splitmix(st.wrapping_add(crate::tables::GOLDEN_GAMMA)) as int % n;
            let s = record(b, k as int);
            after == (if x < sample && rules::outcome(s.game()) is None {
                before.push(s)
            } else {
                before
            })
        }),
{
}

/// A taken record among the first `k` of `n` does not describe a position.
pub open spec fn broken(b: Seq<u8>, sample: int, n: int, state: u64, k: nat) -> bool
    decreases k,
{
    k > 0 && {
        ||| broken(b, sample, n, state, (k - 1) as nat)
        ||| taken(sample, n, selected(b, sample, n, state, (k - 1) as nat).1) && !record(
            b,
            k - 1,
        ).wf()
    }
}

proof fn lemma_read(b: Seq<u8>, s: Sample)
    requires
        data::decodes(b, s),
    ensures
        read(b) == s,
{
    let t = read(b);
    assert(data::decodes(b, t));
    assert(t.nibbles@ =~= s.nibbles@);
    assert(t.nibbles =~= s.nibbles);
}

/// The record describes a position: at most 32 pieces, each of a known kind.
fn is_sound(s: &Sample) -> (r: bool)
    ensures
        r == s.wf(),
{
    let n: u32 = s.occ.count_ones();
    if n > 32 {
        return false;
    }
    let mut i: usize = 0;
    while i < n as usize
        invariant
            n == bits::popcount(s.occ),
            n <= 32,
            i <= n,
            forall|k: int| 0 <= k < i ==> #[trigger] data::nibble(s.nibbles@, k) < 12,
        decreases n - i,
    {
        let b: u8 = s.nibbles[i / 2];
        let q: u8 = if i % 2 == 0 {
            b % 16
        } else {
            b / 16
        };
        assert(q == data::nibble(s.nibbles@, i as int));
        if q >= 12 {
            return false;
        }
        i += 1;
    }
    true
}

fn example(s: &Sample) -> (r: Option<Example>)
    requires
        s.wf(),
    ensures
        r is Some <==> rules::outcome(s.game()) is None,
        r matches Some(e) ==> e.tells(*s),
{
    proof {
        reveal(Example::tells);
    }
    let pos = s.to_position();
    if pos.result().is_some() {
        return None;
    }
    let score: i32 = if pos.side == Color::White {
        s.score as i32
    } else {
        -(s.score as i32)
    };
    Some(
        Example {
            counts: eval_feature_counts(&pos, &TUNED_WEIGHTS),
            scale: endgame_scale(&pos, &TUNED_WEIGHTS),
            score,
            result: s.result,
        },
    )
}

fn read_record(b: &[u8], i: usize) -> (s: Sample)
    requires
        32 * i + 32 <= b@.len(),
    ensures
        s == record(b@, i as int),
{
    let size: usize = b.len();
    assert(32 * i + 32 <= size);
    let part: &[u8] = slice_subrange(b, 32 * i, 32 * i + 32);
    match Sample::decode(part) {
        Some(s) => {
            proof {
                lemma_read(part@, s);
            }
            s
        },
        None => Sample { occ: 0, nibbles: [0;16], side: 0, ply: 0, score: 0, result: 0, flags: 0 },
    }
}

/// A record that takes part, or is broken.
enum Look {
    Skipped,
    Broken,
    Kept(Example),
}

fn look_at(b: &[u8], i: usize) -> (r: Look)
    requires
        32 * i + 32 <= b@.len(),
    ensures
        ({
            let s = record(b@, i as int);
            &&& r is Broken <==> !s.wf()
            &&& r is Kept <==> s.wf() && rules::outcome(s.game()) is None
            &&& r matches Look::Kept(e) ==> e.tells(s)
        }),
{
    let s: Sample = read_record(b, i);
    if !is_sound(&s) {
        return Look::Broken;
    }
    match example(&s) {
        Some(e) => Look::Kept(e),
        None => Look::Skipped,
    }
}

/// The examples say what the records say.
pub open spec fn all_tell(v: Seq<Example>, l: Seq<Sample>) -> bool {
    &&& v.len() == l.len()
    &&& forall|i: int| 0 <= i < v.len() ==> (#[trigger] v[i]).tells(l[i])
}

/// Reads the examples out of a file of records; bytes behind the last whole record are
/// dropped. With `sample` above 0 only about so many records are taken, at random.
/// Nothing comes back when a taken record does not describe a position.
pub fn examples(b: &[u8], sample: usize, rng: &mut SplitMix64) -> (r: Option<Vec<Example>>)
    ensures
        r is None <==> broken(
            b@,
            sample as int,
            b@.len() as int / 32,
            old(rng).state(),
            (b@.len() / 32) as nat,
        ),
        r matches Some(v) ==> ({
            let (l, st) = selected(
                b@,
                sample as int,
                b@.len() as int / 32,
                old(rng).state(),
                (b@.len() / 32) as nat,
            );
            all_tell(v@, l) && final(rng).state() == st
        }),
{
    let n: usize = b.len() / 32;
    let ghost st0 = rng.state();
    let mut v: Vec<Example> = Vec::new();
    let mut i: usize = 0;
    while i < n
        invariant
            n == b@.len() / 32,
            i <= n,
            st0 == old(rng).state(),
            rng.state() == selected(b@, sample as int, n as int, st0, i as nat).1,
            all_tell(v@, selected(b@, sample as int, n as int, st0, i as nat).0),
            !broken(b@, sample as int, n as int, st0, i as nat),
        decreases n - i,
    {
        let ghost st = rng.state();
        let mut take: bool = true;
        if sample > 0 {
            take = rng.below(n) < sample;
        }
        assert(take == taken(sample as int, n as int, st));
        if take {
            match look_at(b, i) {
                Look::Broken => {
                    proof {
                        lemma_broken_stays(
                            b@,
                            sample as int,
                            n as int,
                            st0,
                            (i + 1) as nat,
                            n as nat,
                        );
                    }
                    return None;
                },
                Look::Kept(e) => {
                    v.push(e);
                },
                Look::Skipped => {},
            }
        }
        i += 1;
    }
    Some(v)
}

proof fn lemma_broken_stays(b: Seq<u8>, sample: int, n: int, state: u64, k: nat, m: nat)
    requires
        broken(b, sample, n, state, k),
        k <= m,
    ensures
        broken(b, sample, n, state, m),
    decreases m - k,
{
    if k < m {
        lemma_broken_stays(b, sample, n, state, k, (m - 1) as nat);
    }
}

/// How many of `n` examples are held out for an honest read.
pub fn held_out(n: usize) -> (r: usize)
    ensures
        r == if n / 20 < 1 {
            1
        } else if n / 20 > 200_000 {
            200_000
        } else {
            n / 20
        },
{
    let k: usize = n / 20;
    if k < 1 {
        1
    } else if k > 200_000 {
        200_000
    } else {
        k
    }
}

} // verus!
