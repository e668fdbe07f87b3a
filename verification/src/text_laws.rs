//! What the functions on text mean, said of the characters alone.

use crate::text;
use vstd::prelude::*;

verus! {

/// Trimming takes the whitespace off both ends and nothing else.
pub proof fn trimming_takes_whitespace_off_both_ends(s: Seq<char>) -> (r: (int, int))
    ensures
        0 <= r.0 <= r.1 <= s.len(),
        text::trimmed(s) == s.subrange(r.0, r.1),
        forall|k: int| 0 <= k < r.0 ==> text::unicode_whitespace(#[trigger] s[k]),
        forall|k: int| r.1 <= k < s.len() ==> text::unicode_whitespace(#[trigger] s[k]),
        r.0 < r.1 ==> !text::unicode_whitespace(s[r.0]) && !text::unicode_whitespace(s[r.1 - 1]),
{
    let a = lemma_trimmed_start(s);
    let t = s.skip(a);
    let b = lemma_trimmed_end(t);
    assert(text::trimmed(s) =~= s.subrange(a, a + b));
    assert forall|k: int| a + b <= k < s.len() implies text::unicode_whitespace(
        #[trigger] s[k],
    ) by {
        assert(t[k - a] == s[k]);
    }
    if 0 < b {
        assert(t[0] == s[a]);
        assert(t[b - 1] == s[a + b - 1]);
    }
    (a, a + b)
}

proof fn lemma_trimmed_start(s: Seq<char>) -> (a: int)
    ensures
        0 <= a <= s.len(),
        text::trimmed_start(s) == s.skip(a),
        forall|k: int| 0 <= k < a ==> text::unicode_whitespace(#[trigger] s[k]),
        a < s.len() ==> !text::unicode_whitespace(s[a]),
    decreases s.len(),
{
    if s.len() > 0 && text::unicode_whitespace(s[0]) {
        let a = lemma_trimmed_start(s.skip(1));
        assert(s.skip(1).skip(a) =~= s.skip(a + 1));
        assert forall|k: int| 0 <= k < a + 1 implies text::unicode_whitespace(#[trigger] s[k]) by {
            if k > 0 {
                assert(s.skip(1)[k - 1] == s[k]);
            }
        }
        if a + 1 < s.len() {
            assert(s.skip(1)[a] == s[a + 1]);
        }
        a + 1
    } else {
        assert(s.skip(0) =~= s);
        0
    }
}

proof fn lemma_trimmed_end(s: Seq<char>) -> (b: int)
    ensures
        0 <= b <= s.len(),
        text::trimmed_end(s) == s.take(b),
        forall|k: int| b <= k < s.len() ==> text::unicode_whitespace(#[trigger] s[k]),
        b > 0 ==> !text::unicode_whitespace(s[b - 1]),
    decreases s.len(),
{
    if s.len() > 0 && text::unicode_whitespace(s.last()) {
        let b = lemma_trimmed_end(s.drop_last());
        assert(s.drop_last().take(b) =~= s.take(b));
        assert forall|k: int| b <= k < s.len() implies text::unicode_whitespace(#[trigger] s[k]) by {
            if k < s.len() - 1 {
                assert(s.drop_last()[k] == s[k]);
            }
        }
        if b > 0 {
            assert(s.drop_last()[b - 1] == s[b - 1]);
        }
        b
    } else {
        assert(s.take(s.len() as int) =~= s);
        s.len() as int
    }
}

/// The two texts are alike up to `k`, where the first ends or has the smaller character.
pub open spec fn parts_at(a: Seq<char>, b: Seq<char>, k: int) -> bool {
    &&& 0 <= k <= a.len()
    &&& k < b.len()
    &&& forall|i: int| 0 <= i < k ==> #[trigger] a[i] == b[i]
    &&& k < a.len() ==> a[k] < b[k]
}

/// One text precedes another where they part at some place, and the first ends there or
/// has the smaller character.
pub proof fn texts_are_ordered_where_they_part(a: Seq<char>, b: Seq<char>)
    ensures
        text::precedes(a, b) <==> exists|k: int| #[trigger] parts_at(a, b, k),
    decreases a.len(),
{
    if b.len() == 0 {
    } else if a.len() == 0 {
        assert(parts_at(a, b, 0));
    } else if a[0] != b[0] {
        if a[0] < b[0] {
            assert(parts_at(a, b, 0));
        }
        if exists|k: int| #[trigger] parts_at(a, b, k) {
            let k = choose|k: int| #[trigger] parts_at(a, b, k);
            if k > 0 {
                assert(a[0] == b[0]);
            }
        }
    } else {
        let (c, d) = (a.skip(1), b.skip(1));
        texts_are_ordered_where_they_part(c, d);
        if text::precedes(c, d) {
            let k = choose|k: int| #[trigger] parts_at(c, d, k);
            assert forall|i: int| 0 <= i < k + 1 implies #[trigger] a[i] == b[i] by {
                if i > 0 {
                    assert(c[i - 1] == a[i]);
                    assert(d[i - 1] == b[i]);
                }
            }
            if k < c.len() {
                assert(c[k] == a[k + 1] && d[k] == b[k + 1]);
            }
            assert(parts_at(a, b, k + 1));
        }
        if exists|k: int| #[trigger] parts_at(a, b, k) {
            let k = choose|k: int| #[trigger] parts_at(a, b, k);
            assert(k > 0);
            assert forall|i: int| 0 <= i < k - 1 implies #[trigger] c[i] == d[i] by {
                assert(a[i + 1] == b[i + 1]);
            }
            assert(parts_at(c, d, k - 1));
        }
    }
}

/// `pattern` stands in `s` at `p`.
pub open spec fn stands_at(s: Seq<char>, pattern: Seq<char>, p: int) -> bool {
    0 <= p && p + pattern.len() <= s.len() && s.subrange(p, p + pattern.len()) == pattern
}

/// A search finds the first place from `from` on at which the pattern stands, and nothing
/// only where there is none.
pub proof fn searching_finds_the_first_place(s: Seq<char>, pattern: Seq<char>, from: int)
    requires
        0 <= from,
    ensures
        text::position(s, pattern, from) matches Some(p) ==> from <= p && stands_at(
            s,
            pattern,
            p,
        ) && forall|q: int| from <= q < p ==> !#[trigger] stands_at(s, pattern, q),
        text::position(s, pattern, from) is None ==> forall|q: int|
            from <= q ==> !#[trigger] stands_at(s, pattern, q),
    decreases s.len() + 1 - from,
{
    if from + pattern.len() <= s.len() && s.subrange(from, from + pattern.len()) != pattern {
        searching_finds_the_first_place(s, pattern, from + 1);
        assert(!stands_at(s, pattern, from));
    }
}

/// Lower case changes the capital letters of ASCII, each to the small letter 32 codes on,
/// and nothing else.
pub proof fn lower_case_is_32_codes_on(c: char)
    ensures
        0x41 <= c as u32 <= 0x5a ==> text::ascii_lower(c) as u32 == c as u32 + 32,
        !(0x41 <= c as u32 <= 0x5a) ==> text::ascii_lower(c) == c,
{
    if 0x41 <= c as u32 <= 0x5a {
        let u = c as u32 + 32;
        assert(u < 0x80);
        assert(u as u8 as char as u32 == u);
    }
}

/// The last digit of a number in decimal is its remainder by ten, and what stands before
/// it is the number without it. A single digit stands alone.
pub proof fn decimals_are_digits(n: nat)
    ensures
        text::decimal(n).len() >= 1,
        text::decimal(n).last() as u32 == 0x30 + n % 10,
        n < 10 ==> text::decimal(n).len() == 1,
        n >= 10 ==> text::decimal(n).drop_last() == text::decimal(n / 10),
        n >= 10 ==> text::decimal(n)[0] != '0',
    decreases n,
{
    if n >= 10 {
        decimals_are_digits(n / 10);
        assert(text::decimal(n).drop_last() =~= text::decimal(n / 10));
        assert(text::decimal(n)[0] == text::decimal(n / 10)[0]);
        if n / 10 < 10 {
            assert(text::decimal(n / 10)[0] as u32 == 0x30 + (n / 10) % 10);
        }
    }
}

/// A negative number is its opposite behind a minus sign.
pub proof fn negative_decimals_have_a_sign(n: int)
    ensures
        n >= 0 ==> text::signed_decimal(n) == text::decimal(n as nat),
        n < 0 ==> text::signed_decimal(n) == seq!['-'] + text::decimal((-n) as nat),
{
}

/// Reading a number goes digit by digit: one more digit makes ten times as much and the
/// digit, what is no digit is no number, and what is above the bound is refused. A plus
/// sign in front changes nothing.
pub proof fn numbers_are_read_digit_by_digit(s: Seq<char>, c: char, max: nat)
    requires
        s.len() > 0,
        s[0] != '+',
    ensures
        0x30 <= c as u32 <= 0x39 && text::unsigned_value(s, max) is Some && (
        text::unsigned_value(s, max)->0) * 10 + (c as u32 - 0x30) <= max ==> text::unsigned_value(
            s.push(c),
            max,
        ) == Some(((text::unsigned_value(s, max)->0) * 10 + (c as u32 - 0x30)) as nat),
        0x30 <= c as u32 <= 0x39 && text::unsigned_value(s, max) is Some && (
        text::unsigned_value(s, max)->0) * 10 + (c as u32 - 0x30) > max ==> text::unsigned_value(
            s.push(c),
            max,
        ) is None,
        !(0x30 <= c as u32 <= 0x39) ==> text::unsigned_value(s.push(c), max) is None,
        text::unsigned_value(s, max) matches Some(n) ==> n <= max,
        text::unsigned_value(seq!['+'] + s, max) == text::unsigned_value(s, max),
{
    let t = s.push(c);
    assert(t.drop_last() =~= s);
    assert(t.last() == c);
    assert(t[0] == s[0]);
    let u = seq!['+'] + s;
    assert(u[0] == '+');
    assert(u.skip(1) =~= s);
}

/// A single character is a number exactly where it is a digit; nothing is none.
pub proof fn single_digits_are_numbers(c: char, max: nat)
    requires
        max >= 9,
    ensures
        0x30 <= c as u32 <= 0x39 ==> text::unsigned_value(seq![c], max) == Some(
            (c as u32 - 0x30) as nat,
        ),
        !(0x30 <= c as u32 <= 0x39) ==> text::unsigned_value(seq![c], max) is None,
        text::unsigned_value(Seq::empty(), max) is None,
{
    assert(seq![c].skip(1) =~= Seq::<char>::empty());
}

} // verus!
