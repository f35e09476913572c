//! Building and reading text: decimal numbers, case, white space, words.

use vstd::prelude::*;
use vstd::string::*;

verus! {

/// `String::push` appends one character.
pub assume_specification[ String::push ](s: &mut String, c: char)
    ensures
        final(s)@ == old(s)@.push(c),
;

/// The decimal digit `d`.
pub open spec fn digit(d: int) -> char {
    (('0' as u32 as int) + d) as u32 as char
}

/// `n` in decimal, without leading zeros.
pub open spec fn decimal(n: nat) -> Seq<char>
    decreases n,
{
    if n < 10 {
        seq![digit(n as int)]
    } else {
        decimal(n / 10).push(digit((n % 10) as int))
    }
}

/// A signed number in decimal.
pub open spec fn signed_decimal(n: int) -> Seq<char> {
    if n < 0 {
        seq!['-'] + decimal((-n) as nat)
    } else {
        decimal(n as nat)
    }
}

pub fn digit_char(d: u8) -> (c: char)
    requires
        d < 10,
    ensures
        c == digit(d as int),
{
    (48u8 + d) as char
}

/// Appends `n` in decimal.
pub fn push_decimal(out: &mut String, n: u128)
    ensures
        final(out)@ == old(out)@ + decimal(n as nat),
    decreases n,
{
    if n >= 10 {
        push_decimal(out, n / 10);
    }
    out.push(digit_char((n % 10) as u8));
    assert(out@ =~= old(out)@ + decimal(n as nat));
}

/// Lower case of an ASCII letter; any other character is unchanged.
pub open spec fn ascii_lower(c: char) -> char {
    if 'A' <= c <= 'Z' {
        ((c as u32) + 32) as u32 as char
    } else {
        c
    }
}

/// Upper case of an ASCII letter; any other character is unchanged.
pub open spec fn ascii_upper(c: char) -> char {
    if 'a' <= c <= 'z' {
        ((c as u32) - 32) as u32 as char
    } else {
        c
    }
}

pub fn to_lower(c: char) -> (r: char)
    ensures
        r == ascii_lower(c),
{
    if 'A' <= c && c <= 'Z' {
        ((c as u8) + 32u8) as char
    } else {
        c
    }
}

pub fn to_upper(c: char) -> (r: char)
    ensures
        r == ascii_upper(c),
{
    if 'a' <= c && c <= 'z' {
        ((c as u8) - 32u8) as char
    } else {
        c
    }
}

/// The characters of a text.
pub fn chars_of(s: &str) -> (v: Vec<char>)
    ensures
        v@ == s@,
{
    let mut v: Vec<char> = Vec::new();
    for c in it: s.chars()
        invariant
            v@ == it.seq().take(it.index()),
            it.seq() == s@,
    {
        v.push(c);
    }
    assert(s@.take(s@.len() as int) =~= s@);
    v
}

// ---------------------------------------------------------------------------
// Words
// ---------------------------------------------------------------------------

/// White space, as Unicode has it.
pub open spec fn white(c: char) -> bool {
    ||| '\u{9}' <= c <= '\u{d}'
    ||| c == '\u{20}'
    ||| c == '\u{85}'
    ||| c == '\u{a0}'
    ||| c == '\u{1680}'
    ||| '\u{2000}' <= c <= '\u{200a}'
    ||| c == '\u{2028}'
    ||| c == '\u{2029}'
    ||| c == '\u{202f}'
    ||| c == '\u{205f}'
    ||| c == '\u{3000}'
}

/// The words of a text: its longest runs without white space.
pub open spec fn words(t: Seq<char>) -> Seq<Seq<char>>
    decreases t.len(),
{
    if t.len() == 0 {
        Seq::empty()
    } else {
        let before = words(t.drop_last());
        if white(t.last()) {
            before
        } else if t.len() == 1 || white(t[t.len() - 2]) {
            before.push(seq![t.last()])
        } else {
            before.drop_last().push(before.last().push(t.last()))
        }
    }
}

fn is_white(c: char) -> (b: bool)
    ensures
        b == white(c),
{
    ('\u{9}' <= c && c <= '\u{d}') || c == '\u{20}' || c == '\u{85}' || c == '\u{a0}' || c
        == '\u{1680}' || ('\u{2000}' <= c && c <= '\u{200a}') || c == '\u{2028}' || c == '\u{2029}'
        || c == '\u{202f}' || c == '\u{205f}' || c == '\u{3000}'
}

/// The views of a list of words.
pub open spec fn texts(v: Seq<Vec<char>>) -> Seq<Seq<char>> {
    Seq::new(v.len(), |i: int| v[i]@)
}

/// Splits a text at white space.
pub fn split_words(s: &str) -> (v: Vec<Vec<char>>)
    ensures
        texts(v@) == words(s@),
{
    let t: Vec<char> = chars_of(s);
    let mut v: Vec<Vec<char>> = Vec::new();
    let mut cur: Vec<char> = Vec::new();
    let mut i: usize = 0;
    proof {
        assert(t@.take(0) =~= Seq::<char>::empty());
        assert(texts(v@) =~= words(t@.take(0)));
    }
    while i < t.len()
        invariant
            i <= t.len(),
            cur@.len() > 0 <==> i > 0 && !white(t@[i - 1]),
            words(t@.take(i as int)) == if cur@.len() > 0 {
                texts(v@).push(cur@)
            } else {
                texts(v@)
            },
        decreases t.len() - i,
    {
        let c: char = t[i];
        let ghost before = t@.take(i as int);
        let ghost done = texts(v@);
        proof {
            assert(t@.take(i + 1).drop_last() =~= before);
        }
        if is_white(c) {
            if cur.len() > 0 {
                let ghost w = cur@;
                v.push(cur);
                assert(texts(v@) =~= done.push(w));
                cur = Vec::new();
            }
        } else {
            let ghost w = cur@;
            cur.push(c);
            proof {
                if w.len() > 0 {
                    assert(done.push(w).drop_last() =~= done);
                } else {
                    assert(cur@ =~= seq![c]);
                }
            }
        }
        i += 1;
    }
    assert(t@.take(t.len() as int) =~= s@);
    if cur.len() > 0 {
        let ghost done = texts(v@);
        let ghost w = cur@;
        v.push(cur);
        assert(texts(v@) =~= done.push(w));
    }
    v
}

// ---------------------------------------------------------------------------
// Reading numbers
// ---------------------------------------------------------------------------

pub open spec fn is_digit(c: char) -> bool {
    '0' <= c <= '9'
}

/// The number that a row of digits stands for.
pub open spec fn digits_value(t: Seq<char>) -> nat
    decreases t.len(),
{
    if t.len() == 0 {
        0
    } else {
        digits_value(t.drop_last()) * 10 + (t.last() as nat - '0' as nat) as nat
    }
}

/// One or more digits, and nothing else.
pub open spec fn all_digits(t: Seq<char>) -> bool {
    t.len() > 0 && forall|i: int| 0 <= i < t.len() ==> is_digit(#[trigger] t[i])
}

/// The digits of an unsigned number that may carry a plus sign.
pub open spec fn unsigned_part(t: Seq<char>) -> Seq<char> {
    if t.len() > 0 && t[0] == '+' {
        t.skip(1)
    } else {
        t
    }
}

/// The unsigned number up to `max` that a text stands for.
pub open spec fn number_of(t: Seq<char>, max: int) -> Option<int> {
    let d = unsigned_part(t);
    if all_digits(d) && digits_value(d) <= max {
        Some(digits_value(d) as int)
    } else {
        None
    }
}

/// The number of 16 bits that a text stands for.
pub open spec fn u16_of(t: Seq<char>) -> Option<int> {
    number_of(t, 65535)
}

/// The signed number of 32 bits that a text stands for.
pub open spec fn i32_of(t: Seq<char>) -> Option<int> {
    if t.len() > 0 && t[0] == '-' {
        let d = t.skip(1);
        if all_digits(d) && digits_value(d) <= 0x8000_0000 {
            Some(-(digits_value(d) as int))
        } else {
            None
        }
    } else {
        number_of(t, 0x7fff_ffff)
    }
}

/// Reads digits from `start` on.
fn parse_digits(t: &Vec<char>, start: usize, max: u64) -> (r: Option<u64>)
    requires
        start <= t@.len(),
    ensures
        (match r {
            Some(n) => Some(n as int),
            None => None,
        }) == (if all_digits(t@.skip(start as int)) && digits_value(t@.skip(start as int)) <= max {
            Some(digits_value(t@.skip(start as int)) as int)
        } else {
            None
        }),
{
    let ghost d = t@.skip(start as int);
    if t.len() == start {
        return None;
    }
    let mut n: u128 = 0;
    let mut i: usize = start;
    proof {
        assert(d.take(0) =~= Seq::<char>::empty());
    }
    let mut over: bool = false;
    while i < t.len()
        invariant
            start <= i <= t.len(),
            d == t@.skip(start as int),
            forall|j: int| 0 <= j < i - start ==> is_digit(#[trigger] d[j]),
            !over ==> n == digits_value(d.take(i - start)) && n <= max,
            over ==> digits_value(d.take(i - start)) > max,
        decreases t.len() - i,
    {
        let c: char = t[i];
        if !('0' <= c && c <= '9') {
            assert(d[i - start] == c);
            return None;
        }
        proof {
            assert(d.take(i - start + 1).drop_last() =~= d.take(i - start));
        }
        if !over {
            n = n * 10 + (c as u32 - 48u32) as u128;
            if n > max as u128 {
                over = true;
            }
        }
        i += 1;
    }
    assert(d.take(t.len() - start) =~= d);
    if over {
        None
    } else {
        Some(n as u64)
    }
}

/// Reads an unsigned number up to `max`.
pub fn parse_number(t: &Vec<char>, max: u64) -> (r: Option<u64>)
    ensures
        (match r {
            Some(n) => Some(n as int),
            None => None,
        }) == number_of(t@, max as int),
        r matches Some(n) ==> n <= max,
{
    let start: usize = if t.len() > 0 && t[0] == '+' {
        1
    } else {
        0
    };
    assert(unsigned_part(t@) =~= t@.skip(start as int));
    parse_digits(t, start, max)
}

/// Reads a number of 16 bits.
pub fn parse_u16(t: &Vec<char>) -> (r: Option<u16>)
    ensures
        r is Some <==> u16_of(t@) is Some,
        r matches Some(n) ==> u16_of(t@) == Some(n as int),
{
    match parse_number(t, 65535) {
        Some(n) => Some(n as u16),
        None => None,
    }
}

/// Reads a signed number of 32 bits.
pub fn parse_i32(t: &Vec<char>) -> (r: Option<i32>)
    ensures
        (match r {
            Some(n) => Some(n as int),
            None => None,
        }) == i32_of(t@),
{
    if t.len() > 0 && t[0] == '-' {
        match parse_digits(t, 1, 0x8000_0000) {
            Some(n) => Some((-(n as i64)) as i32),
            None => None,
        }
    } else {
        match parse_number(t, 0x7fff_ffff) {
            Some(n) => Some(n as i32),
            None => None,
        }
    }
}

/// A decimal number consists of digits and reads back as itself.
pub proof fn lemma_decimal_reads(n: nat)
    ensures
        all_digits(decimal(n)),
        digits_value(decimal(n)) == n,
        decimal(n).len() > 0,
    decreases n,
{
    if n < 10 {
        reveal_with_fuel(digits_value, 2);
        assert(decimal(n).drop_last() =~= Seq::<char>::empty());
    } else {
        lemma_decimal_reads(n / 10);
        assert(decimal(n).drop_last() =~= decimal(n / 10));
        assert forall|i: int| 0 <= i < decimal(n).len() implies is_digit(
            #[trigger] decimal(n)[i],
        ) by {
            if i < decimal(n / 10).len() {
                assert(decimal(n)[i] == decimal(n / 10)[i]);
            }
        }
    }
}

/// No white space in a text.
pub open spec fn solid(t: Seq<char>) -> bool {
    forall|i: int| 0 <= i < t.len() ==> !white(#[trigger] t[i])
}

/// White space ends no word that has not ended yet.
pub proof fn lemma_words_space(t: Seq<char>)
    ensures
        words(t.push(' ')) == words(t),
{
    assert(t.push(' ').drop_last() =~= t);
}

/// A text without white space, after white space or at the start, is one more word.
pub proof fn lemma_words_append(t: Seq<char>, w: Seq<char>)
    requires
        t.len() == 0 || white(t.last()),
        w.len() > 0,
        solid(w),
    ensures
        words(t + w) == words(t).push(w),
    decreases w.len(),
{
    assert((t + w).drop_last() =~= t + w.drop_last());
    if w.len() == 1 {
        assert(t + w.drop_last() =~= t);
        assert(w =~= seq![w.last()]);
    } else {
        lemma_words_append(t, w.drop_last());
        let x = t + w;
        assert(x[x.len() - 2] == w[w.len() - 2]);
        assert(words(t).push(w.drop_last()).drop_last() =~= words(t));
        assert(w.drop_last().push(w.last()) =~= w);
    }
}

/// `a` comes before `b` in the dictionary.
pub open spec fn less(a: Seq<char>, b: Seq<char>) -> bool {
    ||| exists|i: int| #[trigger] first_difference(a, b, i) && a[i] < b[i]
    ||| a.len() < b.len() && a == b.take(a.len() as int)
}

/// `i` is the first place where `a` and `b` differ.
pub open spec fn first_difference(a: Seq<char>, b: Seq<char>, i: int) -> bool {
    &&& 0 <= i < a.len()
    &&& i < b.len()
    &&& a[i] != b[i]
    &&& forall|j: int| 0 <= j < i ==> #[trigger] a[j] == b[j]
}

// ---------------------------------------------------------------------------
// Lists of texts
// ---------------------------------------------------------------------------

/// The views of a list of strings.
pub open spec fn strings(v: Seq<String>) -> Seq<Seq<char>> {
    Seq::new(v.len(), |i: int| v[i]@)
}

/// Texts in a row, parted by spaces.
pub open spec fn joined(l: Seq<Seq<char>>) -> Seq<char>
    decreases l.len(),
{
    if l.len() == 0 {
        Seq::empty()
    } else if l.len() == 1 {
        l[0]
    } else {
        joined(l.drop_last()) + seq![' '] + l.last()
    }
}

/// A list in order with one more text, behind all that do not come after it.
pub open spec fn inserted(l: Seq<Seq<char>>, t: Seq<char>) -> Seq<Seq<char>>
    decreases l.len(),
{
    if l.len() == 0 || !less(t, l.last()) {
        l.push(t)
    } else {
        inserted(l.drop_last(), t).push(l.last())
    }
}

/// A list in the order of the dictionary.
pub open spec fn sorted(l: Seq<Seq<char>>) -> Seq<Seq<char>>
    decreases l.len(),
{
    if l.len() == 0 {
        l
    } else {
        inserted(sorted(l.drop_last()), l.last())
    }
}

/// Two texts in the order of the dictionary, or equal.
pub open spec fn in_order(a: Seq<char>, b: Seq<char>) -> bool {
    !less(b, a)
}

proof fn lemma_in_order_chain(a: Seq<char>, b: Seq<char>, c: Seq<char>)
    requires
        in_order(a, b),
        in_order(b, c),
    ensures
        in_order(a, c),
{
    if less(c, a) {
        lemma_less_or_equal(a, b);
        lemma_less_or_equal(b, c);
        lemma_less_chain(a, b, c);
        assert(less(a, c) || a == c);
        lemma_less_one_way(a, c);
    }
}

/// The first difference at or after `i` of texts that agree before.
proof fn lemma_difference(a: Seq<char>, b: Seq<char>, i: int)
    requires
        0 <= i <= a.len(),
        i <= b.len(),
        forall|j: int| 0 <= j < i ==> #[trigger] a[j] == b[j],
    ensures
        a == b || less(a, b) || less(b, a),
    decreases a.len() - i,
{
    if i == a.len() {
        if i == b.len() {
            assert(a =~= b);
        } else {
            assert(a =~= b.take(a.len() as int));
        }
    } else if i == b.len() {
        assert(b =~= a.take(b.len() as int));
    } else if a[i] == b[i] {
        lemma_difference(a, b, i + 1);
    } else {
        assert(first_difference(a, b, i));
        assert(first_difference(b, a, i));
    }
}

proof fn lemma_less_or_equal(a: Seq<char>, b: Seq<char>)
    requires
        in_order(a, b),
    ensures
        less(a, b) || a == b,
{
    lemma_difference(a, b, 0);
}

proof fn lemma_less_one_way(a: Seq<char>, c: Seq<char>)
    ensures
        !(less(a, c) && less(c, a)),
        !less(a, a),
{
    if less(a, c) && less(c, a) {
        if exists|i: int| #[trigger] first_difference(a, c, i) && a[i] < c[i] {
            let i = choose|i: int| #[trigger] first_difference(a, c, i) && a[i] < c[i];
            if exists|k: int| #[trigger] first_difference(c, a, k) && c[k] < a[k] {
                let k = choose|k: int| #[trigger] first_difference(c, a, k) && c[k] < a[k];
                assert(i == k);
            } else {
                assert(c[i] == a.take(c.len() as int)[i]);
            }
        } else {
            assert(a == c.take(a.len() as int));
            let k = choose|k: int| #[trigger] first_difference(c, a, k) && c[k] < a[k];
            assert(a[k] == c.take(a.len() as int)[k]);
        }
    }
    if less(a, a) {
        let i = choose|i: int| #[trigger] first_difference(a, a, i) && a[i] < a[i];
        assert(a[i] != a[i]);
    }
}

/// Where `less` comes from: a first difference, or one text starting the other.
spec fn parting(a: Seq<char>, b: Seq<char>) -> int {
    if exists|i: int| #[trigger] first_difference(a, b, i) && a[i] < b[i] {
        choose|i: int| #[trigger] first_difference(a, b, i) && a[i] < b[i]
    } else {
        a.len() as int
    }
}

proof fn lemma_parting(a: Seq<char>, b: Seq<char>)
    requires
        less(a, b),
    ensures
        ({
            let i = parting(a, b);
            &&& 0 <= i <= a.len()
            &&& i < b.len()
            &&& forall|j: int| 0 <= j < i ==> #[trigger] a[j] == b[j]
            &&& i < a.len() ==> a[i] < b[i]
        }),
{
    if !(exists|i: int| #[trigger] first_difference(a, b, i) && a[i] < b[i]) {
        assert forall|j: int| 0 <= j < a.len() implies #[trigger] a[j] == b[j] by {
            assert(b.take(a.len() as int)[j] == b[j]);
        }
    }
}

proof fn lemma_parted(a: Seq<char>, b: Seq<char>, i: int)
    requires
        0 <= i <= a.len(),
        i < b.len(),
        forall|j: int| 0 <= j < i ==> #[trigger] a[j] == b[j],
        i < a.len() ==> a[i] < b[i],
    ensures
        less(a, b),
{
    if i < a.len() {
        assert(first_difference(a, b, i));
    } else {
        assert(a =~= b.take(a.len() as int));
    }
}

proof fn lemma_less_chain(a: Seq<char>, b: Seq<char>, c: Seq<char>)
    ensures
        less(a, b) && less(b, c) ==> less(a, c),
{
    if less(a, b) && less(b, c) {
        lemma_parting(a, b);
        lemma_parting(b, c);
        let (i, k) = (parting(a, b), parting(b, c));
        let p = if i < k {
            i
        } else {
            k
        };
        assert forall|j: int| 0 <= j < p implies #[trigger] a[j] == c[j] by {
            assert(a[j] == b[j] && b[j] == c[j]);
        }
        if k < i {
            assert(a[k] == b[k]);
        }
        lemma_parted(a, c, p);
    }
}

proof fn lemma_inserted(l: Seq<Seq<char>>, t: Seq<char>)
    requires
        forall|i: int, j: int| 0 <= i <= j < l.len() ==> in_order(#[trigger] l[i], #[trigger] l[j]),
    ensures
        ({
            let r = inserted(l, t);
            &&& r.len() == l.len() + 1
            &&& forall|i: int, j: int|
                0 <= i <= j < r.len() ==> in_order(#[trigger] r[i], #[trigger] r[j])
            &&& r.to_multiset() =~= l.to_multiset().insert(t)
            &&& forall|i: int|
                0 <= i < r.len() ==> (#[trigger] r[i]) == t || exists|k: int|
                    0 <= k < l.len() && l[k] == r[i]
        }),
    decreases l.len(),
{
    broadcast use vstd::seq_lib::group_to_multiset_ensures;

    let r = inserted(l, t);
    lemma_less_one_way(t, t);
    if l.len() == 0 || !less(t, l.last()) {
        assert forall|i: int, j: int| 0 <= i <= j < r.len() implies in_order(
            #[trigger] r[i],
            #[trigger] r[j],
        ) by {
            if j == l.len() && i < l.len() {
                assert(in_order(l[i], l[l.len() - 1]));
                lemma_in_order_chain(l[i], l.last(), t);
            }
        }
    } else {
        let rest = l.drop_last();
        assert(l =~= rest.push(l.last()));
        assert forall|i: int, j: int| 0 <= i <= j < rest.len() implies in_order(
            #[trigger] rest[i],
            #[trigger] rest[j],
        ) by {
            assert(in_order(l[i], l[j]));
        }
        lemma_inserted(rest, t);
        let r0 = inserted(rest, t);
        lemma_less_one_way(t, l.last());
        lemma_less_one_way(l.last(), l.last());
        assert forall|i: int, j: int| 0 <= i <= j < r.len() implies in_order(
            #[trigger] r[i],
            #[trigger] r[j],
        ) by {
            if j < r0.len() {
                assert(in_order(r0[i], r0[j]));
            } else if i < r0.len() {
                if r0[i] != t {
                    let k = choose|k: int| 0 <= k < rest.len() && rest[k] == r0[i];
                    assert(in_order(l[k], l[l.len() - 1]));
                }
            }
        }
        assert forall|i: int| 0 <= i < r.len() implies (#[trigger] r[i]) == t || exists|k: int|
            0 <= k < l.len() && l[k] == r[i] by {
            if i < r0.len() {
                if r0[i] != t {
                    let k = choose|k: int| 0 <= k < rest.len() && rest[k] == r0[i];
                    assert(l[k] == r[i]);
                }
            } else {
                assert(l[l.len() - 1] == r[i]);
            }
        }
    }
}

/// Sorting puts texts in order, and neither adds nor drops any.
pub proof fn law_sorted(l: Seq<Seq<char>>)
    ensures
        sorted(l).to_multiset() == l.to_multiset(),
        sorted(l).len() == l.len(),
        forall|i: int, j: int|
            0 <= i <= j < l.len() ==> in_order(#[trigger] sorted(l)[i], #[trigger] sorted(l)[j]),
    decreases l.len(),
{
    broadcast use vstd::seq_lib::group_to_multiset_ensures;

    if l.len() > 0 {
        let rest = l.drop_last();
        law_sorted(rest);
        lemma_inserted(sorted(rest), l.last());
        assert(l =~= rest.push(l.last()));
    }
}

/// The text `a` comes before `b`.
fn comes_before(a: &str, b: &str) -> (r: bool)
    ensures
        r == less(a@, b@),
{
    let x: Vec<char> = chars_of(a);
    let y: Vec<char> = chars_of(b);
    let mut i: usize = 0;
    while i < x.len() && i < y.len()
        invariant
            i <= x@.len(),
            i <= y@.len(),
            x@ == a@,
            y@ == b@,
            forall|j: int| 0 <= j < i ==> #[trigger] a@[j] == b@[j],
        decreases x.len() - i,
    {
        if x[i] != y[i] {
            proof {
                assert(first_difference(a@, b@, i as int));
                assert(first_difference(b@, a@, i as int));
                lemma_less_one_way(a@, b@);
            }
            return x[i] < y[i];
        }
        i += 1;
    }
    proof {
        if i < b@.len() {
            lemma_parted(a@, b@, i as int);
        } else if a@ == b@ {
            lemma_less_one_way(a@, a@);
        } else {
            lemma_less_one_way(a@, b@);
            if i < a@.len() {
                lemma_parted(b@, a@, i as int);
            } else {
                assert(a@ =~= b@);
            }
        }
    }
    i < y.len()
}

proof fn lemma_insertion_place(l: Seq<Seq<char>>, t: Seq<char>, p: int)
    requires
        0 <= p <= l.len(),
        p > 0 ==> !less(t, l[p - 1]),
        forall|k: int| p <= k < l.len() ==> less(t, #[trigger] l[k]),
    ensures
        inserted(l, t) == l.insert(p, t),
    decreases l.len(),
{
    if l.len() == 0 || p == l.len() {
        assert(l.insert(p, t) =~= l.push(t));
    } else {
        lemma_insertion_place(l.drop_last(), t, p);
        assert(l.drop_last().insert(p, t).push(l.last()) =~= l.insert(p, t));
    }
}

/// Sorts a list of texts.
pub fn sort_texts(v: Vec<String>) -> (r: Vec<String>)
    ensures
        strings(r@) == sorted(strings(v@)),
{
    let mut out: Vec<String> = Vec::new();
    let mut rest: Vec<String> = v;
    let ghost all = strings(v@);
    // Taken off the end, so that no text has to be copied.
    let mut flipped: Vec<String> = Vec::new();
    while rest.len() > 0
        invariant
            rest@.len() + flipped@.len() == all.len(),
            forall|i: int| 0 <= i < rest@.len() ==> (#[trigger] rest@[i])@ == all[i],
            forall|i: int|
                0 <= i < flipped@.len() ==> (#[trigger] flipped@[i])@ == all[all.len() - 1 - i],
        decreases rest.len(),
    {
        match rest.pop() {
            Some(t) => {
                flipped.push(t);
            },
            None => {},
        }
    }
    assert(strings(out@) =~= sorted(all.take(0)));
    while flipped.len() > 0
        invariant
            flipped@.len() <= all.len(),
            forall|i: int|
                0 <= i < flipped@.len() ==> (#[trigger] flipped@[i])@ == all[all.len() - 1 - i],
            strings(out@) == sorted(all.take(all.len() - flipped@.len())),
        decreases flipped.len(),
    {
        let ghost n = all.len() - flipped@.len();
        match flipped.pop() {
            Some(t) => {
                let ghost before = strings(out@);
                proof {
                    assert(t@ == all[n]);
                    assert(all.take(n + 1).drop_last() =~= all.take(n));
                    assert(all.take(n + 1).last() == t@);
                }
                let mut p: usize = out.len();
                while p > 0 && comes_before(t.as_str(), out[p - 1].as_str())
                    invariant
                        p <= out@.len(),
                        before == strings(out@),
                        forall|k: int| p <= k < out@.len() ==> less(t@, #[trigger] before[k]),
                    decreases p,
                {
                    p -= 1;
                }
                proof {
                    if p > 0 {
                        assert(before[p - 1] == out@[p - 1]@);
                    }
                    lemma_insertion_place(before, t@, p as int);
                }
                let ghost word = t@;
                out.insert(p, t);
                assert(strings(out@) =~= before.insert(p as int, word));
            },
            None => {},
        }
    }
    assert(all.take(all.len() as int) =~= all);
    out
}

/// Puts texts in a row, parted by spaces: those from `from` up to `to`.
pub fn join_texts(v: &Vec<String>, from: usize, to: usize) -> (r: String)
    requires
        from <= to <= v@.len(),
    ensures
        r@ == joined(strings(v@).subrange(from as int, to as int)),
{
    let mut out: String = String::new();
    let mut i: usize = from;
    let ghost l = strings(v@);
    while i < to
        invariant
            from <= i <= to <= v@.len(),
            l == strings(v@),
            out@ == joined(l.subrange(from as int, i as int)),
        decreases to - i,
    {
        if i > from {
            out.push(' ');
        }
        out.append(v[i].as_str());
        proof {
            let longer = l.subrange(from as int, i + 1);
            assert(longer.drop_last() =~= l.subrange(from as int, i as int));
            assert(out@ =~= joined(longer));
        }
        i += 1;
    }
    out
}

/// A text without the byte order marks in front of it.
pub open spec fn unmarked(t: Seq<char>) -> Seq<char>
    decreases t.len(),
{
    if t.len() > 0 && t[0] == '\u{feff}' {
        unmarked(t.skip(1))
    } else {
        t
    }
}

/// Strips byte order marks: piping a script into a program can prefix one to the first
/// line.
pub fn strip_marks(s: &str) -> (r: String)
    ensures
        r@ == unmarked(s@),
{
    let t: Vec<char> = chars_of(s);
    let mut i: usize = 0;
    proof {
        assert(s@.skip(0) =~= s@);
    }
    while i < t.len() && t[i] == '\u{feff}'
        invariant
            i <= t@.len(),
            t@ == s@,
            unmarked(s@) == unmarked(s@.skip(i as int)),
        decreases t.len() - i,
    {
        proof {
            assert(s@.skip(i as int).skip(1) =~= s@.skip(i + 1));
        }
        i += 1;
    }
    let ghost rest = s@.skip(i as int);
    let mut out: String = String::new();
    let ghost from = i;
    while i < t.len()
        invariant
            from <= i <= t@.len(),
            t@ == s@,
            rest == s@.skip(from as int),
            out@ == rest.take(i - from),
        decreases t.len() - i,
    {
        out.push(t[i]);
        i += 1;
        assert(out@ =~= rest.take(i - from));
    }
    assert(rest.take(rest.len() as int) =~= rest);
    out
}

/// The text holds the same characters.
pub fn same_text(a: &Vec<char>, b: &str) -> (r: bool)
    ensures
        r == (a@ == b@),
{
    let t: Vec<char> = chars_of(b);
    if a.len() != t.len() {
        return false;
    }
    let mut i: usize = 0;
    while i < a.len()
        invariant
            i <= a@.len(),
            a@.len() == t@.len(),
            t@ == b@,
            forall|j: int| 0 <= j < i ==> #[trigger] a@[j] == t@[j],
        decreases a.len() - i,
    {
        if a[i] != t[i] {
            return false;
        }
        i += 1;
    }
    assert(a@ =~= b@);
    true
}

/// Characters as a string.
pub fn string_of(t: &Vec<char>) -> (r: String)
    ensures
        r@ == t@,
{
    let mut out: String = String::new();
    let mut i: usize = 0;
    while i < t.len()
        invariant
            i <= t@.len(),
            out@ == t@.take(i as int),
        decreases t.len() - i,
    {
        out.push(t[i]);
        i += 1;
        assert(out@ =~= t@.take(i as int));
    }
    assert(t@.take(t@.len() as int) =~= t@);
    out
}

} // verus!
