//! What a query is compiled into, said of its characters alone: which of them make
//! words, how a query falls apart, and which phrases it must give.

use crate::fts_laws;
use crate::fts_query;
use crate::fts_query::{CharClass, SegmentText};
use crate::search;
use crate::text;
use vstd::prelude::*;

verus! {

// ---------------------------------------------------------------------------
// Characters
// ---------------------------------------------------------------------------

/// The characters of ASCII that make words: letters, digits, `_` and `-`.
pub open spec fn ascii_word(c: char) -> bool {
    let u = c as u32;
    ||| 0x30 <= u <= 0x39
    ||| 0x41 <= u <= 0x5a
    ||| 0x61 <= u <= 0x7a
    ||| u == 0x5f
    ||| u == 0x2d
}

/// What Unicode says of a character agrees with ASCII, where it is an ASCII one.
pub open spec fn told(c: char) -> bool {
    (c as u32) < 0x80 ==> fts_query::unicode_alphanumeric(c) == fts_query::ascii_alphanumeric(c)
}

/// The classes of characters by their codes: the Japanese scripts are told apart whatever
/// else holds of them, any other character makes a word where it is alphanumeric, and of
/// those that are not only `_` and `-` do.
pub proof fn classes_go_by_codes(c: char, alphanumeric: bool)
    ensures
        ({
            let u = c as u32;
            let class = fts_query::class_given(c, alphanumeric);
            let kanji = 0x4e00 <= u <= 0x9fff || 0x3400 <= u <= 0x4dbf || 0xf900 <= u <= 0xfaff
                || 0x2f800 <= u <= 0x2fa1f || u == 0x3005 || u == 0x3006;
            let hiragana = 0x3041 <= u <= 0x309f;
            let katakana = 0x30a1 <= u <= 0x30ff || 0xff66 <= u <= 0xff9f;
            &&& class == CharClass::Kanji <==> kanji
            &&& class == CharClass::Hiragana <==> hiragana
            &&& class == CharClass::Katakana <==> katakana
            &&& class == CharClass::OtherWord <==> !kanji && !hiragana && !katakana && (
            alphanumeric || u == 0x5f || u == 0x2d)
            &&& class == CharClass::Separator <==> !kanji && !hiragana && !katakana
                && !alphanumeric && u != 0x5f && u != 0x2d
        }),
{
}

/// An ASCII character makes a word exactly where it is a letter, a digit, `_` or `-`, and
/// separates words otherwise.
pub proof fn ascii_words_are_letters_and_digits(c: char)
    requires
        (c as u32) < 0x80,
        told(c),
    ensures
        fts_query::class_of(c) == CharClass::OtherWord <==> ascii_word(c),
        fts_query::class_of(c) == CharClass::Separator <==> !ascii_word(c),
{
}

// ---------------------------------------------------------------------------
// Quotes
// ---------------------------------------------------------------------------

/// Doubling goes character by character, and doubles the quotes only.
pub proof fn doubling_goes_character_by_character(a: Seq<char>, b: Seq<char>, c: char)
    ensures
        fts_query::doubled(a + b) == fts_query::doubled(a) + fts_query::doubled(b),
        fts_query::doubled(Seq::empty()) == Seq::<char>::empty(),
        c != '"' ==> fts_query::doubled(seq![c]) == seq![c],
        c == '"' ==> fts_query::doubled(seq![c]) == seq!['"', '"'],
        fts_query::quoted(a) == seq!['"'] + fts_query::doubled(a) + seq!['"'],
    decreases b.len(),
{
    if b.len() == 0 {
        assert(a + b =~= a);
        assert(fts_query::doubled(a) + Seq::<char>::empty() =~= fts_query::doubled(a));
        assert(fts_query::doubled(b) =~= Seq::<char>::empty());
    } else {
        assert((a + b).drop_last() =~= a + b.drop_last());
        doubling_goes_character_by_character(a, b.drop_last(), c);
        assert(fts_query::doubled(a + b) =~= fts_query::doubled(a) + fts_query::doubled(b));
    }
    assert(seq![c].drop_last() =~= Seq::<char>::empty());
    assert(fts_query::doubled(Seq::<char>::empty()) =~= Seq::<char>::empty());
    if c == '"' {
        assert(fts_query::doubled(seq![c]) =~= seq!['"', '"']);
    } else {
        assert(fts_query::doubled(seq![c]) =~= seq![c]);
    }
    assert(fts_query::quoted(a) =~= seq!['"'] + fts_query::doubled(a) + seq!['"']);
}

/// A plain stretch, unless it is empty.
pub open spec fn plainly(x: Seq<char>) -> Seq<SegmentText> {
    if x.len() == 0 {
        Seq::empty()
    } else {
        seq![SegmentText::Plain(x)]
    }
}

proof fn lemma_scan_shift(pre: Seq<char>, y: Seq<char>, i: int)
    requires
        0 <= i,
    ensures
        fts_query::scan_quoted(pre + y, pre.len() + i) == (match fts_query::scan_quoted(y, i) {
            Some((content, end)) => Some((content, pre.len() + end)),
            None => None,
        }),
    decreases y.len() - i,
{
    let s = pre + y;
    let n = pre.len() as int;
    if i < y.len() {
        assert(s[n + i] == y[i]);
        if y[i] != '"' {
            lemma_scan_shift(pre, y, i + 1);
        } else if i + 1 < y.len() && y[i + 1] == '"' {
            assert(s[n + i + 1] == y[i + 1]);
            lemma_scan_shift(pre, y, i + 2);
        } else {
            if i + 1 < y.len() {
                assert(s[n + i + 1] == y[i + 1]);
            }
        }
    }
}

proof fn lemma_segments_shift(pre: Seq<char>, y: Seq<char>, a: int, b: int)
    requires
        0 <= a <= b,
        a <= y.len(),
    ensures
        fts_query::segments_from(pre + y, pre.len() + a, pre.len() + b)
            == fts_query::segments_from(y, a, b),
    decreases y.len() - b,
{
    let s = pre + y;
    let n = pre.len() as int;
    assert(s.skip(n + a) =~= y.skip(a));
    if b < y.len() {
        assert(s[n + b] == y[b]);
        if y[b] != '"' {
            lemma_segments_shift(pre, y, a, b + 1);
        } else {
            lemma_scan_shift(pre, y, b + 1);
            match fts_query::scan_quoted(y, b + 1) {
                Some((content, end)) => {
                    if b < end <= y.len() {
                        lemma_segments_shift(pre, y, end, end);
                        assert(s.subrange(n + a, n + b) =~= y.subrange(a, b));
                    }
                },
                None => {},
            }
        }
    }
}

proof fn lemma_up_to_the_quote(s: Seq<char>, i: int, n: int)
    requires
        0 <= i <= n <= s.len(),
        forall|k: int| 0 <= k < n ==> #[trigger] s[k] != '"',
    ensures
        fts_query::segments_from(s, 0, i) == fts_query::segments_from(s, 0, n),
    decreases n - i,
{
    if i < n {
        lemma_up_to_the_quote(s, i + 1, n);
    }
}

/// What holds no quote is one plain stretch.
pub proof fn without_quotes_all_is_plain(x: Seq<char>)
    requires
        !x.contains('"'),
    ensures
        fts_query::segments(x) == plainly(x),
{
    assert forall|k: int| 0 <= k < x.len() implies #[trigger] x[k] != '"' by {
        assert(x.contains(x[k]));
    }
    lemma_up_to_the_quote(x, 0, x.len() as int);
    assert(x.skip(0) =~= x);
}

proof fn lemma_scan_of_doubled(pre: Seq<char>, p: Seq<char>, post: Seq<char>)
    requires
        post.len() == 0 || post[0] != '"',
    ensures
        fts_query::scan_quoted(
            pre + fts_query::doubled(p) + seq!['"'] + post,
            pre.len() as int,
        ) == Some((p, (pre.len() + fts_query::doubled(p).len() + 1) as int)),
    decreases p.len(),
{
    let s = pre + fts_query::doubled(p) + seq!['"'] + post;
    let n = pre.len() as int;
    if p.len() == 0 {
        assert(fts_query::doubled(p) =~= Seq::<char>::empty());
        assert(s[n] == '"');
        assert(n + 1 < s.len() ==> s[n + 1] == post[0]);
        assert(p =~= Seq::<char>::empty());
    } else {
        let c = p[0];
        let rest = p.skip(1);
        assert(p =~= seq![c] + rest);
        doubling_goes_character_by_character(seq![c], rest, c);
        let longer = pre + fts_query::doubled(seq![c]);
        assert(s =~= longer + fts_query::doubled(rest) + seq!['"'] + post);
        lemma_scan_of_doubled(longer, rest, post);
        assert(s[n] == c);
        if c == '"' {
            assert(s[n + 1] == '"');
        } else {
            assert(longer.len() == n + 1);
        }
    }
}

/// The first quoted region of a query is cut out, and the rest is cut as a query of its
/// own: what stands before it is plain.
pub proof fn quoted_regions_are_cut_out(x: Seq<char>, p: Seq<char>, y: Seq<char>)
    requires
        !x.contains('"'),
        y.len() == 0 || y[0] != '"',
    ensures
        fts_query::segments(x + fts_query::quoted(p) + y) == plainly(x) + seq![
            SegmentText::Quoted(p),
        ] + fts_query::segments(y),
{
    let s = x + fts_query::quoted(p) + y;
    let n = x.len() as int;
    assert forall|k: int| 0 <= k < n implies #[trigger] s[k] != '"' by {
        assert(s[k] == x[k]);
        assert(x.contains(x[k]));
    }
    lemma_up_to_the_quote(s, 0, n);
    let pre = x + seq!['"'];
    lemma_scan_of_doubled(pre, p, y);
    assert(s =~= pre + fts_query::doubled(p) + seq!['"'] + y);
    let head = pre + fts_query::doubled(p) + seq!['"'];
    let end = head.len() as int;
    assert(s =~= head + y);
    assert(s[n] == '"');
    assert(fts_query::scan_quoted(s, n + 1) == Some((p, end)));
    lemma_segments_shift(head, y, 0, 0);
    assert(s.subrange(0, n) =~= x);
    assert(fts_query::plain(x) =~= plainly(x));
}

proof fn lemma_scan_never_closes(pre: Seq<char>, p: Seq<char>)
    ensures
        fts_query::scan_quoted(pre + fts_query::doubled(p), pre.len() as int) is None,
    decreases p.len(),
{
    let s = pre + fts_query::doubled(p);
    let n = pre.len() as int;
    if p.len() == 0 {
        assert(fts_query::doubled(p) =~= Seq::<char>::empty());
    } else {
        let c = p[0];
        let rest = p.skip(1);
        assert(p =~= seq![c] + rest);
        doubling_goes_character_by_character(seq![c], rest, c);
        let longer = pre + fts_query::doubled(seq![c]);
        assert(s =~= longer + fts_query::doubled(rest));
        lemma_scan_never_closes(longer, rest);
        assert(s[n] == c);
        if c == '"' {
            assert(s[n + 1] == '"');
        } else {
            assert(longer.len() == n + 1);
        }
    }
}

/// A quote that never closes opens nothing: the whole query stays plain.
pub proof fn unclosed_quotes_stay_plain(x: Seq<char>, p: Seq<char>)
    requires
        !x.contains('"'),
    ensures
        fts_query::segments(x + seq!['"'] + fts_query::doubled(p)) == plainly(
            x + seq!['"'] + fts_query::doubled(p),
        ),
{
    let s = x + seq!['"'] + fts_query::doubled(p);
    let n = x.len() as int;
    assert forall|k: int| 0 <= k < n implies #[trigger] s[k] != '"' by {
        assert(s[k] == x[k]);
        assert(x.contains(x[k]));
    }
    lemma_up_to_the_quote(s, 0, n);
    lemma_scan_never_closes(x + seq!['"'], p);
    assert(s =~= (x + seq!['"']) + fts_query::doubled(p));
    assert(s[n] == '"');
    assert(s.skip(0) =~= s);
}

// ---------------------------------------------------------------------------
// Groups
// ---------------------------------------------------------------------------

proof fn lemma_group_len(s: Seq<char>, n: int)
    requires
        0 <= n <= s.len(),
        forall|k: int| 0 <= k < n ==> !fts_query::is_separator(#[trigger] s[k]),
        n == s.len() || fts_query::is_separator(s[n]),
    ensures
        fts_query::group_len(s) == n,
    decreases n,
{
    if n > 0 {
        let t = s.skip(1);
        assert forall|k: int| 0 <= k < n - 1 implies !fts_query::is_separator(#[trigger] t[k]) by {
            assert(t[k] == s[k + 1]);
        }
        if n < s.len() {
            assert(t[n - 1] == s[n]);
        }
        assert(!fts_query::is_separator(s[0]));
        lemma_group_len(t, n - 1);
    }
}

proof fn lemma_group_len_is(s: Seq<char>)
    ensures
        fts_query::group_len(s) <= s.len(),
        forall|k: int|
            0 <= k < fts_query::group_len(s) ==> !fts_query::is_separator(#[trigger] s[k]),
        fts_query::group_len(s) < s.len() ==> fts_query::is_separator(
            s[fts_query::group_len(s) as int],
        ),
    decreases s.len(),
{
    if s.len() > 0 && !fts_query::is_separator(s[0]) {
        let t = s.skip(1);
        lemma_group_len_is(t);
        let n = fts_query::group_len(s) as int;
        assert forall|k: int| 0 <= k < n implies !fts_query::is_separator(#[trigger] s[k]) by {
            if k > 0 {
                assert(t[k - 1] == s[k]);
            }
        }
        if n < s.len() {
            assert(t[n - 1] == s[n]);
        }
    }
}

/// A separator parts what stands before it from what stands after it, and is in no group.
pub proof fn separators_part_groups(x: Seq<char>, c: char, y: Seq<char>)
    requires
        fts_query::is_separator(c),
    ensures
        fts_query::groups(x + seq![c] + y) == fts_query::groups(x) + fts_query::groups(y),
    decreases x.len(),
{
    let s = x + seq![c] + y;
    lemma_group_len_is(x);
    let n = fts_query::group_len(x) as int;
    assert forall|k: int| 0 <= k < n implies !fts_query::is_separator(#[trigger] s[k]) by {
        assert(s[k] == x[k]);
    }
    assert(fts_query::is_separator(s[n])) by {
        if n < x.len() {
            assert(s[n] == x[n]);
        } else {
            assert(s[n] == c);
        }
    }
    lemma_group_len(s, n);
    if x.len() == 0 {
        assert(s.skip(1) =~= y);
        assert(fts_query::groups(s) =~= fts_query::groups(x) + fts_query::groups(y));
    } else if n == 0 {
        assert(s.skip(1) =~= x.skip(1) + seq![c] + y);
        separators_part_groups(x.skip(1), c, y);
    } else {
        assert(s.take(n) =~= x.take(n));
        assert(s.skip(n) =~= x.skip(n) + seq![c] + y);
        separators_part_groups(x.skip(n), c, y);
        assert(fts_query::groups(s) =~= fts_query::groups(x) + fts_query::groups(y));
    }
}

/// What holds no separator is one group, unless it is empty.
pub proof fn without_separators_all_is_one_group(x: Seq<char>)
    requires
        forall|k: int| 0 <= k < x.len() ==> !fts_query::is_separator(#[trigger] x[k]),
    ensures
        x.len() > 0 ==> fts_query::groups(x) == seq![x],
        x.len() == 0 ==> fts_query::groups(x) == Seq::<Seq<char>>::empty(),
{
    lemma_group_len(x, x.len() as int);
    assert(x.take(x.len() as int) =~= x);
    assert(x.skip(x.len() as int) =~= Seq::<char>::empty());
    assert(fts_query::groups(Seq::<char>::empty()) =~= Seq::<Seq<char>>::empty());
    if x.len() > 0 {
        assert(fts_query::groups(x) =~= seq![x]);
    }
}

/// The stretch `a..b` of a text holds no separator and cannot be made longer.
pub open spec fn whole_group(s: Seq<char>, a: int, b: int) -> bool {
    &&& 0 <= a < b <= s.len()
    &&& forall|k: int| a <= k < b ==> !fts_query::is_separator(#[trigger] s[k])
    &&& a == 0 || fts_query::is_separator(s[a - 1])
    &&& b == s.len() || fts_query::is_separator(s[b])
}

proof fn lemma_whole_group_shift(s: Seq<char>, n: int, a: int, b: int)
    requires
        0 < n <= s.len(),
        n == s.len() || fts_query::is_separator(s[n]) || fts_query::is_separator(s[n - 1]),
        n < s.len() && !fts_query::is_separator(s[n]) ==> fts_query::is_separator(s[n - 1]),
    ensures
        whole_group(s.skip(n), a, b) <==> a >= 0 && whole_group(s, a + n, b + n),
{
    let t = s.skip(n);
    if whole_group(t, a, b) {
        assert forall|k: int| a + n <= k < b + n implies !fts_query::is_separator(
            #[trigger] s[k],
        ) by {
            assert(t[k - n] == s[k]);
        }
        if a > 0 {
            assert(t[a - 1] == s[a + n - 1]);
        } else {
            assert(t[0] == s[n]);
        }
        if b < t.len() {
            assert(t[b] == s[b + n]);
        }
    }
    if a >= 0 && whole_group(s, a + n, b + n) {
        assert forall|k: int| a <= k < b implies !fts_query::is_separator(#[trigger] t[k]) by {
            assert(t[k] == s[k + n]);
        }
        if a > 0 {
            assert(t[a - 1] == s[a + n - 1]);
        }
        if b < t.len() {
            assert(t[b] == s[b + n]);
        }
    }
}

/// The groups of a text are its stretches without a separator that cannot be made longer.
pub proof fn groups_are_the_longest_stretches(s: Seq<char>, g: Seq<char>)
    ensures
        fts_query::groups(s).contains(g) <==> exists|a: int, b: int| #[trigger]
            whole_group(s, a, b) && s.subrange(a, b) == g,
    decreases s.len(),
{
    lemma_group_len_is(s);
    let n = fts_query::group_len(s) as int;
    let all = fts_query::groups(s);
    if s.len() > 0 {
        let step = if n == 0 {
            1
        } else {
            n
        };
        let t = s.skip(step);
        let later = fts_query::groups(t);
        groups_are_the_longest_stretches(t, g);
        if all.contains(g) {
            let i = choose|i: int| 0 <= i < all.len() && all[i] == g;
            if n > 0 && i == 0 {
                assert(whole_group(s, 0, n));
                assert(s.subrange(0, n) =~= g);
            } else {
                assert(later[if n == 0 {
                    i
                } else {
                    i - 1
                }] == g);
                assert(later.contains(g));
                let (a, b) = choose|a: int, b: int| #[trigger]
                    whole_group(t, a, b) && t.subrange(a, b) == g;
                lemma_whole_group_shift(s, step, a, b);
                assert(s.subrange(a + step, b + step) =~= g);
                assert(whole_group(s, a + step, b + step));
            }
        }
        if exists|a: int, b: int| #[trigger] whole_group(s, a, b) && s.subrange(a, b) == g {
            let (a, b) = choose|a: int, b: int| #[trigger]
                whole_group(s, a, b) && s.subrange(a, b) == g;
            if n > 0 && a < n {
                if a > 0 {
                    assert(!fts_query::is_separator(s[a - 1]));
                }
                assert(a == 0);
                if b < n {
                    assert(!fts_query::is_separator(s[b]));
                }
                if b > n {
                    assert(!fts_query::is_separator(s[n]));
                }
                assert(s.subrange(0, n) =~= s.take(n));
                assert(all[0] == g);
            } else {
                if n == 0 {
                    assert(a > 0) by {
                        if a == 0 {
                            assert(!fts_query::is_separator(s[0]));
                        }
                    }
                }
                lemma_whole_group_shift(s, step, a - step, b - step);
                assert(t.subrange(a - step, b - step) =~= g);
                assert(whole_group(t, a - step, b - step));
                assert(later.contains(g));
                let i = choose|i: int| 0 <= i < later.len() && later[i] == g;
                assert(all[if n == 0 {
                    i
                } else {
                    i + 1
                }] == g);
            }
        }
    }
}

// ---------------------------------------------------------------------------
// Phrases of a group
// ---------------------------------------------------------------------------

/// Runs are joined one after the other.
pub proof fn runs_are_joined_in_order(a: Seq<Seq<char>>, b: Seq<Seq<char>>, r: Seq<char>)
    ensures
        fts_query::joined(a + b) == fts_query::joined(a) + fts_query::joined(b),
        fts_query::joined(seq![r]) == r,
        fts_query::joined(Seq::empty()) == Seq::<char>::empty(),
    decreases b.len(),
{
    if b.len() == 0 {
        assert(a + b =~= a);
        assert(fts_query::joined(a) + Seq::<char>::empty() =~= fts_query::joined(a));
    } else {
        assert((a + b).drop_last() =~= a + b.drop_last());
        runs_are_joined_in_order(a, b.drop_last(), r);
        assert(fts_query::joined(a + b) =~= fts_query::joined(a) + fts_query::joined(b));
    }
    reveal_with_fuel(fts_query::joined, 2);
    assert(seq![r].drop_last() =~= Seq::<Seq<char>>::empty());
    assert(fts_query::joined(seq![r]) =~= r);
}

/// How many characters the runs `a..b` hold.
pub open spec fn chars_in(rs: Seq<Seq<char>>, a: int, b: int) -> nat
    decreases b - a,
{
    if a >= b {
        0
    } else {
        chars_in(rs, a, b - 1) + rs[b - 1].len()
    }
}

proof fn lemma_chars_joined(rs: Seq<Seq<char>>, a: int, b: int)
    requires
        0 <= a <= b <= rs.len(),
    ensures
        fts_query::joined(rs.subrange(a, b)).len() == chars_in(rs, a, b),
    decreases b - a,
{
    if a < b {
        assert(rs.subrange(a, b).drop_last() =~= rs.subrange(a, b - 1));
        lemma_chars_joined(rs, a, b - 1);
    }
}

proof fn lemma_chars_front(rs: Seq<Seq<char>>, a: int, b: int, c: int)
    requires
        a <= b <= c,
    ensures
        chars_in(rs, a, c) == chars_in(rs, a, b) + chars_in(rs, b, c),
    decreases c - b,
{
    if b < c {
        lemma_chars_front(rs, a, b, c - 1);
    }
}

proof fn lemma_unit_end(rs: Seq<Seq<char>>, i: int, j: int)
    requires
        0 <= i <= j <= rs.len(),
        chars_in(rs, i, j) < 3,
    ensures
        match fts_query::unit_end(rs, j, chars_in(rs, i, j)) {
            Some(e) => j < e <= rs.len() && chars_in(rs, i, e - 1) < 3 && chars_in(rs, i, e) >= 3,
            None => chars_in(rs, i, rs.len() as int) < 3,
        },
    decreases rs.len() - j,
{
    if j < rs.len() {
        if chars_in(rs, i, j + 1) < 3 {
            lemma_unit_end(rs, i, j + 1);
        } else {
            assert(fts_query::unit_end(rs, j + 1, chars_in(rs, i, j + 1)) == Some(j + 1));
        }
        assert(chars_in(rs, i, j + 1) == chars_in(rs, i, j) + rs[j].len());
    }
}

/// A phrase that the runs `a..b` give: a run that is long enough by itself; or runs joined
/// until they were long enough; or those and the runs left over at the end, too short for
/// a phrase of their own.
pub open spec fn phrase_of_runs(rs: Seq<Seq<char>>, a: int, b: int) -> bool {
    &&& 0 <= a < b <= rs.len()
    &&& chars_in(rs, a, b) >= 3
    &&& {
        ||| b - a == 1
        ||| chars_in(rs, a, b - 1) < 3
        ||| b == rs.len() && exists|c: int|
            a < c < b && #[trigger] chars_in(rs, c, b) < 3 && chars_in(rs, a, c) >= 3 && chars_in(
                rs,
                a,
                c - 1,
            ) < 3
    }
}

/// `p` is a phrase that runs give.
pub open spec fn given_by_runs(rs: Seq<Seq<char>>, p: Seq<char>) -> bool {
    exists|a: int, b: int| #[trigger]
        phrase_of_runs(rs, a, b) && p == fts_query::joined(rs.subrange(a, b))
}

/// Run `k` is in one of the phrases.
pub open spec fn covered(rs: Seq<Seq<char>>, ps: Seq<Seq<char>>, k: int) -> bool {
    exists|a: int, b: int|
        0 <= a <= k < b <= rs.len() && ps.contains(
            #[trigger] fts_query::joined(rs.subrange(a, b)),
        )
}

proof fn lemma_contains_either<A>(a: Seq<A>, b: Seq<A>, x: A)
    ensures
        (a + b).contains(x) <==> a.contains(x) || b.contains(x),
{
    let s = a + b;
    if a.contains(x) {
        let i = choose|i: int| 0 <= i < a.len() && a[i] == x;
        assert(s[i] == x);
    }
    if b.contains(x) {
        let i = choose|i: int| 0 <= i < b.len() && b[i] == x;
        assert(s[a.len() + i] == x);
    }
    if s.contains(x) {
        let i = choose|i: int| 0 <= i < s.len() && s[i] == x;
        if i < a.len() {
            assert(a[i] == x);
        } else {
            assert(b[i - a.len()] == x);
        }
    }
}

proof fn lemma_single_run(rs: Seq<Seq<char>>, k: int)
    requires
        0 <= k < rs.len(),
    ensures
        fts_query::joined(rs.subrange(k, k + 1)) == rs[k],
        chars_in(rs, k, k + 1) == rs[k].len(),
{
    assert(rs.subrange(k, k + 1) =~= seq![rs[k]]);
    runs_are_joined_in_order(Seq::empty(), Seq::empty(), rs[k]);
    assert(chars_in(rs, k, k) == 0);
}

proof fn lemma_unit_phrases(rs: Seq<Seq<char>>, i: int, j: int)
    requires
        0 <= i < j <= rs.len(),
        chars_in(rs, i, j - 1) < 3,
        chars_in(rs, i, j) >= 3,
    ensures
        fts_query::unit_phrases(rs, i, j).contains(fts_query::joined(rs.subrange(i, j))),
        forall|k: int|
            i <= k < j && (#[trigger] rs[k]).len() >= 3 ==> fts_query::unit_phrases(
                rs,
                i,
                j,
            ).contains(rs[k]),
        forall|p: Seq<char>| #[trigger]
            fts_query::unit_phrases(rs, i, j).contains(p) ==> given_by_runs(rs, p),
{
    let whole = fts_query::joined(rs.subrange(i, j));
    let ps = fts_query::unit_phrases(rs, i, j);
    assert(ps[0] == whole);
    lemma_single_run(rs, j - 1);
    assert forall|k: int| i <= k < j && (#[trigger] rs[k]).len() >= 3 implies ps.contains(
        rs[k],
    ) by {
        if k < j - 1 {
            lemma_chars_front(rs, i, k, k + 1);
            lemma_chars_front(rs, i, k + 1, j - 1);
            lemma_single_run(rs, k);
        } else if i == j - 1 {
            assert(ps[0] == rs[k]);
        } else {
            assert(ps[1] == rs[k]);
        }
    }
    assert forall|p: Seq<char>| #[trigger] ps.contains(p) implies given_by_runs(rs, p) by {
        let m = choose|m: int| 0 <= m < ps.len() && ps[m] == p;
        if m == 0 {
            assert(phrase_of_runs(rs, i, j));
        } else {
            assert(phrase_of_runs(rs, j - 1, j));
        }
    }
}

proof fn lemma_phrases_from(rs: Seq<Seq<char>>, i: int)
    requires
        0 <= i <= rs.len(),
    ensures
        ({
            let ps = fts_query::phrases_from(rs, i);
            let n = rs.len() as int;
            &&& ps.len() == 0 <==> chars_in(rs, i, n) < 3
            &&& forall|k: int| i <= k < n && (#[trigger] rs[k]).len() >= 3 ==> ps.contains(rs[k])
            &&& chars_in(rs, i, n) >= 3 ==> forall|k: int|
                i <= k < n ==> #[trigger] covered(rs, ps, k)
            &&& forall|p: Seq<char>| #[trigger] ps.contains(p) ==> given_by_runs(rs, p)
        }),
    decreases rs.len() - i,
{
    let ps = fts_query::phrases_from(rs, i);
    let n = rs.len() as int;
    if i < n {
        assert(chars_in(rs, i, i) == 0);
        lemma_unit_end(rs, i, i);
        match fts_query::unit_end(rs, i, 0) {
            None => {
                assert forall|k: int| i <= k < n && (#[trigger] rs[k]).len() >= 3 implies
                    ps.contains(rs[k]) by {
                    lemma_chars_front(rs, i, k, k + 1);
                    lemma_chars_front(rs, i, k + 1, n);
                    lemma_single_run(rs, k);
                }
            },
            Some(j) => {
                lemma_chars_front(rs, i, j, n);
                lemma_unit_phrases(rs, i, j);
                let own = fts_query::unit_phrases(rs, i, j);
                if j < n {
                    assert(chars_in(rs, j, j) == 0);
                    lemma_unit_end(rs, j, j);
                }
                if j < n && fts_query::unit_end(rs, j, 0) is None {
                    let long = fts_query::joined(rs.subrange(i, n));
                    let first = seq![long];
                    assert(ps == first + own);
                    assert(ps[0] == long);
                    assert forall|p: Seq<char>| #[trigger] ps.contains(p) implies given_by_runs(
                        rs,
                        p,
                    ) by {
                        lemma_contains_either(first, own, p);
                        if first.contains(p) {
                            assert(chars_in(rs, j, n) < 3);
                            assert(phrase_of_runs(rs, i, n));
                        }
                    }
                    assert forall|k: int| i <= k < n && (#[trigger] rs[k]).len() >= 3 implies
                        ps.contains(rs[k]) by {
                        if k < j {
                            assert(own.contains(rs[k]));
                        } else {
                            lemma_chars_front(rs, j, k, k + 1);
                            lemma_chars_front(rs, j, k + 1, n);
                            lemma_single_run(rs, k);
                        }
                        lemma_contains_either(first, own, rs[k]);
                    }
                    assert forall|k: int| i <= k < n implies #[trigger] covered(rs, ps, k) by {
                        assert(ps.contains(long));
                        assert(ps.contains(fts_query::joined(rs.subrange(i, n))));
                    }
                } else {
                    lemma_phrases_from(rs, j);
                    let rest = fts_query::phrases_from(rs, j);
                    assert(ps == own + rest);
                    assert(own.len() > 0);
                    assert forall|p: Seq<char>| #[trigger] ps.contains(p) implies given_by_runs(
                        rs,
                        p,
                    ) by {
                        lemma_contains_either(own, rest, p);
                    }
                    assert forall|k: int| i <= k < n && (#[trigger] rs[k]).len() >= 3 implies
                        ps.contains(rs[k]) by {
                        lemma_contains_either(own, rest, rs[k]);
                    }
                    assert forall|k: int| i <= k < n implies #[trigger] covered(rs, ps, k) by {
                        if k < j {
                            let whole = fts_query::joined(rs.subrange(i, j));
                            lemma_contains_either(own, rest, whole);
                            assert(ps.contains(fts_query::joined(rs.subrange(i, j))));
                        } else {
                            assert(chars_in(rs, j, n) >= 3);
                            assert(covered(rs, rest, k));
                            let (a, b) = choose|a: int, b: int|
                                0 <= a <= k < b <= rs.len() && rest.contains(
                                    #[trigger] fts_query::joined(rs.subrange(a, b)),
                                );
                            lemma_contains_either(
                                own,
                                rest,
                                fts_query::joined(rs.subrange(a, b)),
                            );
                            assert(ps.contains(fts_query::joined(rs.subrange(a, b))));
                        }
                    }
                }
            },
        }
    }
}

/// The phrases of a group: there are some exactly where it holds three characters or more;
/// a run of three characters or more is one by itself; every run is in one of them; and
/// nothing else is a phrase than runs joined as far as it takes.
pub proof fn groups_are_searched_for_whole(rs: Seq<Seq<char>>)
    ensures
        fts_query::group_phrases(rs).len() > 0 <==> fts_query::joined(rs).len() >= 3,
        forall|k: int|
            0 <= k < rs.len() && (#[trigger] rs[k]).len() >= 3 ==> fts_query::group_phrases(
                rs,
            ).contains(rs[k]),
        fts_query::joined(rs).len() >= 3 ==> forall|k: int|
            0 <= k < rs.len() ==> #[trigger] covered(rs, fts_query::group_phrases(rs), k),
        forall|p: Seq<char>| #[trigger]
            fts_query::group_phrases(rs).contains(p) ==> given_by_runs(rs, p),
{
    lemma_phrases_from(rs, 0);
    lemma_chars_joined(rs, 0, rs.len() as int);
    assert(rs.subrange(0, rs.len() as int) =~= rs);
}

proof fn lemma_unit_end_shift(rs: Seq<Seq<char>>, n: int, j: int, acc: nat)
    requires
        0 <= n <= rs.len(),
        0 <= j,
    ensures
        fts_query::unit_end(rs, n + j, acc) == (match fts_query::unit_end(rs.skip(n), j, acc) {
            Some(e) => Some(n + e),
            None => None,
        }),
    decreases rs.len() - n - j,
{
    if acc < 3 && n + j < rs.len() {
        assert(rs.skip(n)[j] == rs[n + j]);
        lemma_unit_end_shift(rs, n, j + 1, acc + rs[n + j].len());
    }
}

proof fn lemma_phrases_shift(rs: Seq<Seq<char>>, n: int, i: int)
    requires
        0 <= n <= rs.len(),
        0 <= i,
    ensures
        fts_query::phrases_from(rs, n + i) == fts_query::phrases_from(rs.skip(n), i),
    decreases rs.len() - n - i,
{
    let t = rs.skip(n);
    if n + i < rs.len() {
        lemma_unit_end_shift(rs, n, i, 0);
        match fts_query::unit_end(t, i, 0) {
            None => {},
            Some(j) => {
                if i < j <= t.len() {
                    lemma_unit_end_shift(rs, n, j, 0);
                    lemma_phrases_shift(rs, n, j);
                    assert(rs.subrange(n + i, n + j) =~= t.subrange(i, j));
                    assert(rs.subrange(n + i, rs.len() as int) =~= t.subrange(
                        i,
                        t.len() as int,
                    ));
                    assert(rs[n + j - 1] == t[j - 1]);
                }
            },
        }
    }
}

/// In which order a group gives its phrases. Its first runs up to run `j`, no more than it
/// takes for three characters, come first: joined, and then the last of them alone, where
/// it is long enough and others stand before it. The rest of the group follows as a group of
/// its own; where that is too short for a phrase, the whole group comes first of all.
pub proof fn groups_are_cut_from_the_left(rs: Seq<Seq<char>>, j: int)
    requires
        0 < j <= rs.len(),
        chars_in(rs, 0, j - 1) < 3,
        chars_in(rs, 0, j) >= 3,
    ensures
        ({
            let joined = seq![fts_query::joined(rs.take(j))];
            let own = if j > 1 && rs[j - 1].len() >= 3 {
                joined.push(rs[j - 1])
            } else {
                joined
            };
            let rest = rs.skip(j);
            &&& rest.len() > 0 && fts_query::joined(rest).len() < 3 ==> fts_query::group_phrases(
                rs,
            ) == seq![fts_query::joined(rs)] + own
            &&& rest.len() == 0 || fts_query::joined(rest).len() >= 3 ==> fts_query::group_phrases(
                rs,
            ) == own + fts_query::group_phrases(rest)
        }),
{
    let n = rs.len() as int;
    assert(chars_in(rs, 0, 0) == 0);
    lemma_unit_end(rs, 0, 0);
    lemma_chars_front(rs, 0, j, n);
    lemma_chars_grow(rs, 0, j, n);
    let e = fts_query::unit_end(rs, 0, 0)->0;
    assert(e == j) by {
        if e < j {
            lemma_chars_grow(rs, 0, e, j - 1);
        } else if j < e {
            lemma_chars_grow(rs, 0, j, e - 1);
        }
    }
    assert(rs.subrange(0, j) =~= rs.take(j));
    assert(rs.subrange(0, n) =~= rs);
    let rest = rs.skip(j);
    lemma_chars_joined(rs, j, n);
    assert(rs.subrange(j, n) =~= rest);
    lemma_phrases_shift(rs, j, 0);
    if j < n {
        assert(chars_in(rs, j, j) == 0);
        lemma_unit_end(rs, j, j);
        if fts_query::unit_end(rs, j, 0) is Some {
            let f = fts_query::unit_end(rs, j, 0)->0;
            lemma_chars_grow(rs, j, f, n);
        }
    }
}

proof fn lemma_chars_grow(rs: Seq<Seq<char>>, a: int, b: int, c: int)
    requires
        b <= c,
    ensures
        chars_in(rs, a, b) <= chars_in(rs, a, c),
    decreases c - b,
{
    if b < c {
        lemma_chars_grow(rs, a, b, c - 1);
    }
}

/// A group of one run is its only phrase, or gives none where it is too short.
pub proof fn a_single_run_is_its_phrase(r: Seq<char>)
    ensures
        r.len() >= 3 ==> fts_query::group_phrases(seq![r]) == seq![r],
        r.len() < 3 ==> fts_query::group_phrases(seq![r]) == Seq::<Seq<char>>::empty(),
{
    let rs = seq![r];
    groups_are_searched_for_whole(rs);
    lemma_single_run(rs, 0);
    assert(rs.subrange(0, 1) =~= rs);
    if r.len() >= 3 {
        lemma_unit_end(rs, 0, 0);
        assert(fts_query::unit_end(rs, 0, 0) == Some(1int));
        assert(fts_query::phrases_from(rs, 1) =~= Seq::<Seq<char>>::empty());
        assert(fts_query::unit_phrases(rs, 0, 1) =~= seq![r]);
        assert(fts_query::group_phrases(rs) =~= seq![r]);
    } else {
        assert(fts_query::group_phrases(rs) =~= Seq::<Seq<char>>::empty());
    }
}

// ---------------------------------------------------------------------------
// Phrases of a query
// ---------------------------------------------------------------------------

/// Regions and groups give their phrases one after the other, each by itself. A quoted
/// region is one phrase, unless it is shorter than three characters or holds a NUL.
pub proof fn phrases_come_region_by_region(
    a: Seq<SegmentText>,
    b: Seq<SegmentText>,
    content: Seq<char>,
    plain: Seq<char>,
)
    ensures
        fts_query::segments_phrases(a + b) == fts_query::segments_phrases(a)
            + fts_query::segments_phrases(b),
        fts_query::segments_phrases(Seq::empty()) == Seq::<Seq<char>>::empty(),
        content.len() >= 3 && !content.contains('\0') ==> fts_query::segments_phrases(
            seq![SegmentText::Quoted(content)],
        ) == seq![content],
        content.len() < 3 || content.contains('\0') ==> fts_query::segments_phrases(
            seq![SegmentText::Quoted(content)],
        ) == Seq::<Seq<char>>::empty(),
        fts_query::segments_phrases(seq![SegmentText::Plain(plain)]) == fts_query::groups_phrases(
            fts_query::groups(plain),
        ),
    decreases b.len(),
{
    if b.len() == 0 {
        assert(a + b =~= a);
        assert(fts_query::segments_phrases(a) + Seq::<Seq<char>>::empty()
            =~= fts_query::segments_phrases(a));
    } else {
        assert((a + b).drop_last() =~= a + b.drop_last());
        phrases_come_region_by_region(a, b.drop_last(), content, plain);
        assert(fts_query::segments_phrases(a + b) =~= fts_query::segments_phrases(a)
            + fts_query::segments_phrases(b));
    }
    reveal_with_fuel(fts_query::segments_phrases, 2);
    let q = seq![SegmentText::Quoted(content)];
    assert(q.drop_last() =~= Seq::<SegmentText>::empty());
    assert(fts_query::segments_phrases(q) =~= fts_query::segment_phrases(q[0]));
    let r = seq![SegmentText::Plain(plain)];
    assert(r.drop_last() =~= Seq::<SegmentText>::empty());
    assert(fts_query::segments_phrases(r) =~= fts_query::segment_phrases(r[0]));
}

/// The groups of a plain stretch give their phrases one after the other.
pub proof fn phrases_come_group_by_group(a: Seq<Seq<char>>, b: Seq<Seq<char>>, g: Seq<char>)
    ensures
        fts_query::groups_phrases(a + b) == fts_query::groups_phrases(a)
            + fts_query::groups_phrases(b),
        fts_query::groups_phrases(Seq::empty()) == Seq::<Seq<char>>::empty(),
        fts_query::groups_phrases(seq![g]) == fts_query::group_phrases(fts_query::runs(g)),
    decreases b.len(),
{
    if b.len() == 0 {
        assert(a + b =~= a);
        assert(fts_query::groups_phrases(a) + Seq::<Seq<char>>::empty()
            =~= fts_query::groups_phrases(a));
    } else {
        assert((a + b).drop_last() =~= a + b.drop_last());
        phrases_come_group_by_group(a, b.drop_last(), g);
        assert(fts_query::groups_phrases(a + b) =~= fts_query::groups_phrases(a)
            + fts_query::groups_phrases(b));
    }
    reveal_with_fuel(fts_query::groups_phrases, 2);
    assert(seq![g].drop_last() =~= Seq::<Seq<char>>::empty());
    assert(fts_query::groups_phrases(seq![g]) =~= fts_query::group_phrases(fts_query::runs(g)));
}

/// `a` stands in the list before any `b`.
pub open spec fn comes_first(all: Seq<Seq<char>>, a: Seq<char>, b: Seq<char>) -> bool {
    exists|p: int|
        0 <= p < all.len() && #[trigger] all[p] == a && forall|q: int|
            0 <= q <= p ==> #[trigger] all[q] != b
}

/// Repeated phrases are dropped, and nothing else: each stays where it first came.
pub proof fn repeated_phrases_are_dropped(all: Seq<Seq<char>>)
    ensures
        fts_query::distinct(all).no_duplicates(),
        forall|p: Seq<char>| #[trigger] fts_query::distinct(all).contains(p) <==> all.contains(p),
        forall|i: int, j: int|
            0 <= i < j < fts_query::distinct(all).len() ==> comes_first(
                all,
                #[trigger] fts_query::distinct(all)[i],
                #[trigger] fts_query::distinct(all)[j],
            ),
    decreases all.len(),
{
    if all.len() > 0 {
        let front = all.drop_last();
        repeated_phrases_are_dropped(front);
        let d = fts_query::distinct(front);
        let r = fts_query::distinct(all);
        let x = all.last();
        assert(all =~= front + seq![x]);
        assert(r =~= d || r =~= d + seq![x]);
        assert forall|p: Seq<char>| #[trigger] r.contains(p) <==> all.contains(p) by {
            lemma_contains_either(front, seq![x], p);
            lemma_contains_either(d, seq![x], p);
            assert(seq![x].contains(p) <==> p == x) by {
                assert(seq![x][0] == x);
            }
            assert(d.contains(p) <==> front.contains(p));
            assert(d.contains(x) <==> front.contains(x));
        }
        assert forall|i: int, j: int| 0 <= i < j < r.len() implies comes_first(
            all,
            #[trigger] r[i],
            #[trigger] r[j],
        ) by {
            if j < d.len() {
                assert(comes_first(front, d[i], d[j]));
                let p = choose|p: int|
                    0 <= p < front.len() && #[trigger] front[p] == d[i] && forall|q: int|
                        0 <= q <= p ==> #[trigger] front[q] != d[j];
                assert(all[p] == r[i]);
                assert forall|q: int| 0 <= q <= p implies #[trigger] all[q] != r[j] by {
                    assert(front[q] != d[j]);
                }
            } else {
                assert(d.contains(d[i]));
                let p = choose|p: int| 0 <= p < front.len() && front[p] == d[i];
                assert(all[p] == r[i]);
                assert forall|q: int| 0 <= q <= p implies #[trigger] all[q] != r[j] by {
                    if all[q] == r[j] {
                        assert(front[q] == x);
                        assert(d.contains(x));
                    }
                }
            }
        }
    }
}

/// Of the phrases the first 32 are searched for, and all of them where they are no more.
pub proof fn the_first_phrases_are_kept(raw: Seq<char>)
    ensures
        ({
            let all = fts_query::distinct(
                fts_query::segments_phrases(fts_query::segments(raw)),
            );
            &&& all.len() <= 32 ==> fts_query::phrases_of(raw) == all
            &&& all.len() >= 32 ==> fts_query::phrases_of(raw) == all.take(32)
            &&& fts_query::phrases_dropped(raw) == all.len() - fts_query::phrases_of(raw).len()
        }),
{
    let all = fts_query::distinct(fts_query::segments_phrases(fts_query::segments(raw)));
    if all.len() == 32 {
        assert(all.take(32) =~= all);
    }
}

// ---------------------------------------------------------------------------
// Expressions
// ---------------------------------------------------------------------------

proof fn lemma_or_joined_front(ps: Seq<Seq<char>>)
    requires
        ps.len() >= 2,
    ensures
        fts_query::or_joined(ps) == fts_query::quoted(ps[0]) + seq![' ', 'O', 'R', ' ']
            + fts_query::or_joined(ps.skip(1)),
    decreases ps.len(),
{
    let or = seq![' ', 'O', 'R', ' '];
    let front = ps.drop_last();
    let rest = ps.skip(1);
    assert(rest.last() == ps.last());
    if ps.len() == 2 {
        assert(fts_query::or_joined(front) == fts_query::quoted(ps[0]));
        assert(fts_query::or_joined(rest) == fts_query::quoted(ps[1]));
    } else {
        lemma_or_joined_front(front);
        assert(front.skip(1) =~= rest.drop_last());
        assert(fts_query::or_joined(ps) =~= fts_query::quoted(ps[0]) + or
            + fts_query::or_joined(rest));
    }
}

/// From place `n` on, the regions read as phrase `i` with `OR` before it, or with nothing
/// before it where it is the first.
pub open spec fn reads_as(
    segs: Seq<SegmentText>,
    n: int,
    ps: Seq<Seq<char>>,
    i: int,
) -> bool {
    &&& segs[n + 2 * i] == SegmentText::Quoted(ps[i])
    &&& i > 0 ==> segs[n + 2 * i - 1] == SegmentText::Plain(seq![' ', 'O', 'R', ' '])
}

proof fn lemma_expression_read(x: Seq<char>, ps: Seq<Seq<char>>)
    requires
        !x.contains('"'),
        ps.len() >= 1,
    ensures
        ({
            let segs = fts_query::segments(x + fts_query::or_joined(ps));
            let n = plainly(x).len() as int;
            &&& segs.len() == n + 2 * ps.len() - 1
            &&& segs.take(n) == plainly(x)
            &&& forall|i: int| 0 <= i < ps.len() ==> #[trigger] reads_as(segs, n, ps, i)
        }),
    decreases ps.len(),
{
    let or = seq![' ', 'O', 'R', ' '];
    let s = x + fts_query::or_joined(ps);
    let segs = fts_query::segments(s);
    let n = plainly(x).len() as int;
    if ps.len() == 1 {
        quoted_regions_are_cut_out(x, ps[0], Seq::empty());
        assert(s =~= x + fts_query::quoted(ps[0]) + Seq::<char>::empty());
        without_quotes_all_is_plain(Seq::<char>::empty());
        assert(segs =~= plainly(x) + seq![SegmentText::Quoted(ps[0])]);
        assert(segs.take(n) =~= plainly(x));
        assert forall|i: int| 0 <= i < ps.len() implies #[trigger] reads_as(segs, n, ps, i) by {
            assert(segs[n] == SegmentText::Quoted(ps[0]));
        }
    } else {
        lemma_or_joined_front(ps);
        let rest = ps.skip(1);
        let y = or + fts_query::or_joined(rest);
        assert(s =~= x + fts_query::quoted(ps[0]) + y);
        assert(y[0] == ' ');
        quoted_regions_are_cut_out(x, ps[0], y);
        assert(!or.contains('"')) by {
            assert(or[0] != '"' && or[1] != '"' && or[2] != '"' && or[3] != '"');
        }
        lemma_expression_read(or, rest);
        let later = fts_query::segments(y);
        assert(segs =~= plainly(x) + seq![SegmentText::Quoted(ps[0])] + later);
        assert(segs.take(n) =~= plainly(x));
        assert(plainly(or).len() == 1);
        assert(later.take(1)[0] == later[0]);
        assert(later[0] == SegmentText::Plain(or));
        assert(segs.len() == n + 1 + later.len());
        assert forall|i: int| 0 <= i < ps.len() implies #[trigger] reads_as(segs, n, ps, i) by {
            if i == 0 {
                assert(segs[n] == SegmentText::Quoted(ps[0]));
            } else {
                assert(reads_as(later, 1, rest, i - 1));
                assert(rest[i - 1] == ps[i]);
                assert(segs[n + 2 * i] == later[2 * i - 1]);
                assert(segs[n + 2 * i - 1] == later[2 * i - 2]);
            }
        }
    }
}

/// An expression reads back as the phrases that it was made of, in their order, with `OR`
/// between each two and nothing else.
pub proof fn expressions_read_back_as_their_phrases(ps: Seq<Seq<char>>, i: int)
    requires
        0 <= i < ps.len(),
    ensures
        fts_query::segments(fts_query::or_joined(ps)).len() == 2 * ps.len() - 1,
        fts_query::segments(fts_query::or_joined(ps))[2 * i] == SegmentText::Quoted(ps[i]),
        i > 0 ==> fts_query::segments(fts_query::or_joined(ps))[2 * i - 1] == SegmentText::Plain(
            seq![' ', 'O', 'R', ' '],
        ),
{
    let x = Seq::<char>::empty();
    lemma_expression_read(x, ps);
    assert(x + fts_query::or_joined(ps) =~= fts_query::or_joined(ps));
    assert(plainly(x).len() == 0);
    assert(reads_as(fts_query::segments(fts_query::or_joined(ps)), 0, ps, i));
}

/// What a query is compiled into: its phrases, where it has some; else the whole query
/// without the whitespace around it as one phrase, where that is three characters or more
/// and holds no NUL; else nothing.
pub proof fn queries_are_searched_for_whole_at_last(raw: Seq<char>)
    ensures
        fts_query::phrases_of(raw).len() > 0 ==> fts_query::expression(raw) == Some(
            fts_query::or_joined(fts_query::phrases_of(raw)),
        ),
        fts_query::phrases_of(raw).len() == 0 ==> (fts_query::expression(raw) is Some
            <==> text::trimmed(raw).len() >= 3 && !text::trimmed(raw).contains('\0')),
        fts_query::phrases_of(raw).len() == 0 && fts_query::expression(raw) is Some
            ==> fts_query::segments(fts_query::expression(raw)->0) == seq![
            SegmentText::Quoted(text::trimmed(raw)),
        ],
{
    fts_laws::quoting_is_undone_by_reading(text::trimmed(raw));
}

/// A search that takes the query as one phrase asks for it without the whitespace around
/// it, where that is three characters or more, and for nothing else.
pub proof fn plain_searches_take_the_query_whole(raw: Seq<char>)
    ensures
        search::sanitized(raw) is Some <==> text::trimmed(raw).len() >= 3,
        search::sanitized(raw) matches Some(e) ==> fts_query::segments(e) == seq![
            SegmentText::Quoted(text::trimmed(raw)),
        ],
{
    fts_laws::quoting_is_undone_by_reading(text::trimmed(raw));
}

// ---------------------------------------------------------------------------
// Queries in ASCII
// ---------------------------------------------------------------------------

/// A query in ASCII without quotes.
pub open spec fn ascii_query(raw: Seq<char>) -> bool {
    forall|k: int| 0 <= k < raw.len() ==> (#[trigger] raw[k] as u32) < 0x80 && raw[k] != '"'
}

/// What Unicode says of the characters of a text agrees with ASCII.
pub open spec fn told_all(s: Seq<char>) -> bool {
    forall|k: int| 0 <= k < s.len() ==> told(#[trigger] s[k])
}

/// The stretch `a..b` of a query is a word of three characters or more: letters, digits,
/// `_` and `-`, with none of these before it or after it.
pub open spec fn long_word(raw: Seq<char>, a: int, b: int) -> bool {
    &&& 0 <= a
    &&& a + 3 <= b <= raw.len()
    &&& forall|k: int| a <= k < b ==> ascii_word(#[trigger] raw[k])
    &&& a == 0 || !ascii_word(raw[a - 1])
    &&& b == raw.len() || !ascii_word(raw[b])
}

/// `p` is one of the longer words of the query.
pub open spec fn word_of(raw: Seq<char>, p: Seq<char>) -> bool {
    exists|a: int, b: int| #[trigger] long_word(raw, a, b) && raw.subrange(a, b) == p
}

proof fn lemma_run_len_all(s: Seq<char>)
    requires
        s.len() > 0,
        forall|k: int|
            0 <= k < s.len() ==> fts_query::class_of(#[trigger] s[k]) == CharClass::OtherWord,
    ensures
        fts_query::run_len(s) == s.len(),
    decreases s.len(),
{
    if s.len() > 1 {
        let t = s.skip(1);
        assert forall|k: int| 0 <= k < t.len() implies fts_query::class_of(#[trigger] t[k])
            == CharClass::OtherWord by {
            assert(t[k] == s[k + 1]);
        }
        assert(fts_query::class_of(s[0]) == fts_query::class_of(s[1]));
        lemma_run_len_all(t);
    }
}

proof fn lemma_word_group(g: Seq<char>)
    requires
        g.len() > 0,
        forall|k: int|
            0 <= k < g.len() ==> fts_query::class_of(#[trigger] g[k]) == CharClass::OtherWord,
    ensures
        fts_query::runs(g) == seq![g],
{
    lemma_run_len_all(g);
    assert(g.take(g.len() as int) =~= g);
    assert(g.skip(g.len() as int) =~= Seq::<char>::empty());
    assert(fts_query::runs(Seq::<char>::empty()) =~= Seq::<Seq<char>>::empty());
    assert(fts_query::runs(g) =~= seq![g]);
}

proof fn lemma_word_groups(gs: Seq<Seq<char>>, p: Seq<char>)
    requires
        forall|i: int|
            0 <= i < gs.len() ==> fts_query::runs(#[trigger] gs[i]) == seq![gs[i]],
    ensures
        fts_query::groups_phrases(gs).contains(p) <==> p.len() >= 3 && gs.contains(p),
    decreases gs.len(),
{
    if gs.len() > 0 {
        let front = gs.drop_last();
        let g = gs.last();
        assert forall|i: int| 0 <= i < front.len() implies fts_query::runs(#[trigger] front[i])
            == seq![front[i]] by {
            assert(front[i] == gs[i]);
        }
        lemma_word_groups(front, p);
        assert(gs =~= front + seq![g]);
        phrases_come_group_by_group(front, seq![g], g);
        assert(fts_query::runs(gs[gs.len() - 1]) == seq![g]);
        a_single_run_is_its_phrase(g);
        lemma_contains_either(front, seq![g], p);
        lemma_contains_either(
            fts_query::groups_phrases(front),
            fts_query::group_phrases(seq![g]),
            p,
        );
        assert(seq![g].contains(p) <==> p == g) by {
            assert(seq![g][0] == g);
        }
        assert(!Seq::<Seq<char>>::empty().contains(p));
    }
}

/// A query in ASCII without quotes is searched for its words of three characters or more,
/// and for nothing else: the phrases, before the cap, are exactly those words.
pub proof fn ascii_queries_are_searched_for_their_words(raw: Seq<char>, p: Seq<char>)
    requires
        ascii_query(raw),
        told_all(raw),
    ensures
        fts_query::distinct(fts_query::segments_phrases(fts_query::segments(raw))).contains(p)
            <==> word_of(raw, p),
{
    assert(!raw.contains('"')) by {
        if raw.contains('"') {
            let k = choose|k: int| 0 <= k < raw.len() && raw[k] == '"';
            assert(raw[k] != '"');
        }
    }
    without_quotes_all_is_plain(raw);
    phrases_come_region_by_region(Seq::empty(), Seq::empty(), Seq::empty(), raw);
    let gs = fts_query::groups(raw);
    let all = fts_query::segments_phrases(fts_query::segments(raw));
    if raw.len() == 0 {
        assert(gs =~= Seq::<Seq<char>>::empty());
        assert(all =~= fts_query::groups_phrases(gs));
    }
    assert(all == fts_query::groups_phrases(gs));
    repeated_phrases_are_dropped(all);
    assert forall|k: int| 0 <= k < raw.len() implies (fts_query::is_separator(#[trigger] raw[k])
        <==> !ascii_word(raw[k])) && (ascii_word(raw[k]) ==> fts_query::class_of(raw[k])
        == CharClass::OtherWord) by {
        assert(told(raw[k]));
        ascii_words_are_letters_and_digits(raw[k]);
    }
    assert forall|i: int| 0 <= i < gs.len() implies fts_query::runs(#[trigger] gs[i]) == seq![
        gs[i],
    ] by {
        groups_are_the_longest_stretches(raw, gs[i]);
        assert(gs.contains(gs[i]));
        let (a, b) = choose|a: int, b: int| #[trigger]
            whole_group(raw, a, b) && raw.subrange(a, b) == gs[i];
        assert forall|k: int| 0 <= k < gs[i].len() implies fts_query::class_of(
            #[trigger] gs[i][k],
        ) == CharClass::OtherWord by {
            assert(gs[i][k] == raw[a + k]);
        }
        lemma_word_group(gs[i]);
    }
    lemma_word_groups(gs, p);
    groups_are_the_longest_stretches(raw, p);
    if p.len() >= 3 && gs.contains(p) {
        let (a, b) = choose|a: int, b: int| #[trigger]
            whole_group(raw, a, b) && raw.subrange(a, b) == p;
        assert(long_word(raw, a, b));
    }
    if word_of(raw, p) {
        let (a, b) = choose|a: int, b: int| #[trigger]
            long_word(raw, a, b) && raw.subrange(a, b) == p;
        assert(whole_group(raw, a, b));
    }
}

} // verus!
