//! Compiles a user's query into a full-text MATCH expression.
//!
//! The query is cut at changes of script, the pieces become phrases, and the
//! phrases are joined with `OR`. Every phrase that does not come from a quoted
//! region is a contiguous piece of the query, because a trigram index can only
//! match substrings.

use crate::fts_laws;
use crate::query_laws;
use crate::text;
use crate::text::{chars_of, contains_char, contains_text, trim};
use vstd::prelude::*;
use vstd::string::{StrSliceExecFns, StringExecFns};

verus! {

/// The fewest characters that a trigram index can match.
pub const MIN_PHRASE_CHARS: usize = 3;

/// The most phrases that one expression holds.
pub const MAX_PHRASES: usize = 32;

/// A region of the query. `Quoted` holds what stands between the quotes, with
/// each doubled quote folded into one.
#[derive(Debug, PartialEq, Eq)]
pub enum Segment<'a> {
    Quoted(String),
    Plain(&'a str),
}

/// A segment as characters.
pub enum SegmentText {
    Quoted(Seq<char>),
    Plain(Seq<char>),
}

impl<'a> View for Segment<'a> {
    type V = SegmentText;

    open spec fn view(&self) -> SegmentText {
        match self {
            Segment::Quoted(s) => SegmentText::Quoted(s@),
            Segment::Plain(s) => SegmentText::Plain(s@),
        }
    }
}

/// The script that a character belongs to.
#[derive(Debug, Clone, Copy, PartialEq, Eq, Structural)]
pub enum CharClass {
    Kanji,
    Hiragana,
    Katakana,
    OtherWord,
    Separator,
}

/// A maximal stretch of one character class inside a group.
#[derive(Debug, Clone, Copy, PartialEq, Eq)]
pub struct Run<'a> {
    pub text: &'a str,
    pub chars: usize,
}

// ---------------------------------------------------------------------------
// Character classes
// ---------------------------------------------------------------------------

/// What `char::is_alphanumeric` says of a character: alphabetic or numeric in
/// Unicode's sense.
pub uninterp spec fn unicode_alphanumeric(c: char) -> bool;

/// The ASCII letters and digits.
pub open spec fn ascii_alphanumeric(c: char) -> bool {
    0x30 <= c as u32 <= 0x39 || 0x41 <= c as u32 <= 0x5a || 0x61 <= c as u32 <= 0x7a
}

/// `char::is_alphanumeric`: alphabetic or numeric in Unicode's sense, which
/// among the ASCII characters holds of the letters and digits.
pub assume_specification[ char::is_alphanumeric ](c: char) -> (r: bool)
    ensures
        r == unicode_alphanumeric(c),
        (c as u32) < 0x80 ==> r == ascii_alphanumeric(c),
;

/// The CJK ideographs of the basic plane with their compatibility forms, and
/// the iteration and closing marks.
pub open spec fn is_kanji(c: char) -> bool {
    let u = c as u32;
    ||| 0x4e00 <= u <= 0x9fff
    ||| 0x3400 <= u <= 0x4dbf
    ||| 0xf900 <= u <= 0xfaff
    ||| 0x2f800 <= u <= 0x2fa1f
    ||| u == 0x3005
    ||| u == 0x3006
}

pub open spec fn is_hiragana(c: char) -> bool {
    0x3041 <= c as u32 <= 0x309f
}

/// Full-width katakana with the long-vowel mark and the middle dot, and
/// half-width katakana.
pub open spec fn is_katakana(c: char) -> bool {
    0x30a1 <= c as u32 <= 0x30ff || 0xff66 <= c as u32 <= 0xff9f
}

/// The class of `c`, given whether it is alphanumeric. The Japanese scripts
/// come first, since they are alphanumeric too.
pub open spec fn class_given(c: char, alphanumeric: bool) -> CharClass {
    if is_kanji(c) {
        CharClass::Kanji
    } else if is_hiragana(c) {
        CharClass::Hiragana
    } else if is_katakana(c) {
        CharClass::Katakana
    } else if alphanumeric || c == '_' || c == '-' {
        CharClass::OtherWord
    } else {
        CharClass::Separator
    }
}

/// The class of `c`.
pub open spec fn class_of(c: char) -> CharClass {
    class_given(c, unicode_alphanumeric(c))
}

pub open spec fn is_separator(c: char) -> bool {
    class_of(c) == CharClass::Separator
}

/// Picks the class of `c`, given whether it is alphanumeric.
pub fn classify_given(c: char, alphanumeric: bool) -> (r: CharClass)
    ensures
        r == class_given(c, alphanumeric),
{
    let u: u32 = c as u32;
    if (0x4e00 <= u && u <= 0x9fff) || (0x3400 <= u && u <= 0x4dbf) || (0xf900 <= u && u <= 0xfaff)
        || (0x2f800 <= u && u <= 0x2fa1f) || u == 0x3005 || u == 0x3006 {
        CharClass::Kanji
    } else if 0x3041 <= u && u <= 0x309f {
        CharClass::Hiragana
    } else if (0x30a1 <= u && u <= 0x30ff) || (0xff66 <= u && u <= 0xff9f) {
        CharClass::Katakana
    } else if alphanumeric || c == '_' || c == '-' {
        CharClass::OtherWord
    } else {
        CharClass::Separator
    }
}

/// The class of one character. For an ASCII character the answer is fixed:
/// letters, digits, `_` and `-` are words, all else separates.
pub fn classify(c: char) -> (r: CharClass)
    ensures
        r == class_of(c),
        (c as u32) < 0x80 ==> r == class_given(c, ascii_alphanumeric(c)),
        query_laws::told(c),
        (c as u32) < 0x80 ==> (r == CharClass::OtherWord <==> query_laws::ascii_word(c)) && (r
            == CharClass::Separator <==> !query_laws::ascii_word(c)),
{
    let alphanumeric = c.is_alphanumeric();
    classify_given(c, alphanumeric)
}

// ---------------------------------------------------------------------------
// Quoted regions
// ---------------------------------------------------------------------------

/// Reads a quoted region whose opening quote stands just before `i`. A doubled
/// quote stands for one quote; a single one closes. Gives the content and the
/// position after the closing quote, or `None` where the quote never closes.
pub open spec fn scan_quoted(s: Seq<char>, i: int) -> Option<(Seq<char>, int)>
    decreases s.len() - i,
{
    if i < 0 || i >= s.len() {
        None
    } else if s[i] != '"' {
        match scan_quoted(s, i + 1) {
            Some((content, end)) => Some((seq![s[i]] + content, end)),
            None => None,
        }
    } else if i + 1 < s.len() && s[i + 1] == '"' {
        match scan_quoted(s, i + 2) {
            Some((content, end)) => Some((seq!['"'] + content, end)),
            None => None,
        }
    } else {
        Some((Seq::empty(), i + 1))
    }
}

/// A plain segment, unless it would be empty.
pub open spec fn plain(s: Seq<char>) -> Seq<SegmentText> {
    if s.len() == 0 {
        Seq::empty()
    } else {
        seq![SegmentText::Plain(s)]
    }
}

/// The segments of `s` from `start` on, where `start..i` holds no quote that
/// opens a region.
pub open spec fn segments_from(s: Seq<char>, start: int, i: int) -> Seq<SegmentText>
    decreases s.len() - i,
{
    if i < 0 || i >= s.len() {
        plain(s.skip(start))
    } else if s[i] != '"' {
        segments_from(s, start, i + 1)
    } else {
        match scan_quoted(s, i + 1) {
            Some((content, end)) => if i < end <= s.len() {
                plain(s.subrange(start, i)) + seq![SegmentText::Quoted(content)]
                    + segments_from(s, end, end)
            } else {
                Seq::empty()
            },
            None => plain(s.skip(start)),
        }
    }
}

/// The query cut into quoted and plain regions. From an opening quote that
/// never closes on, everything is one plain region.
pub open spec fn segments(s: Seq<char>) -> Seq<SegmentText> {
    segments_from(s, 0, 0)
}

proof fn lemma_scan_quoted_bounds(s: Seq<char>, i: int)
    requires
        0 <= i,
    ensures
        scan_quoted(s, i) matches Some((content, end)) ==> i < end <= s.len(),
    decreases s.len() - i,
{
    if i < s.len() {
        if s[i] != '"' {
            lemma_scan_quoted_bounds(s, i + 1);
        } else if i + 1 < s.len() && s[i + 1] == '"' {
            lemma_scan_quoted_bounds(s, i + 2);
        }
    }
}

/// Reads a quoted region from `from` on: the executable side of `scan_quoted`.
fn read_quoted(chars: &Vec<char>, from: usize) -> (r: Option<(String, usize)>)
    requires
        from <= chars@.len(),
    ensures
        match (r, scan_quoted(chars@, from as int)) {
            (Some((content, end)), Some((c, e))) => content@ == c && end == e,
            (None, None) => true,
            _ => false,
        },
{
    let mut content = String::new();
    let mut j: usize = from;
    proof {
        match scan_quoted(chars@, from as int) {
            Some((c, e)) => {
                assert(Seq::<char>::empty() + c == c);
            },
            None => {},
        }
    }
    while j < chars.len()
        invariant
            from <= j <= chars@.len(),
            match (scan_quoted(chars@, from as int), scan_quoted(chars@, j as int)) {
                (Some((c, e)), Some((rest, end))) => c == content@ + rest && e == end,
                (None, None) => true,
                _ => false,
            },
        decreases chars@.len() - j,
    {
        let ghost before = content@;
        if chars[j] == '"' {
            if j + 1 < chars.len() && chars[j + 1] == '"' {
                content.push('"');
                j += 2;
                proof {
                    match scan_quoted(chars@, j as int) {
                        Some((rest, e)) => {
                            assert(before + (seq!['"'] + rest) == before.push('"') + rest);
                        },
                        None => {},
                    }
                }
                continue;
            }
            proof {
                assert(content@ + Seq::<char>::empty() == content@);
            }
            return Some((content, j + 1));
        }
        content.push(chars[j]);
        j += 1;
        proof {
            match scan_quoted(chars@, j as int) {
                Some((rest, e)) => {
                    assert(before + (seq![chars@[j - 1]] + rest) == before.push(chars@[j - 1])
                        + rest);
                },
                None => {},
            }
        }
    }
    None
}

/// The views of a list of segments.
pub open spec fn segment_texts(v: Seq<Segment<'_>>) -> Seq<SegmentText> {
    Seq::new(v.len(), |i: int| v[i]@)
}

/// Cuts the query into quoted and plain regions.
pub fn split_quotes(raw: &str) -> (r: Vec<Segment<'_>>)
    ensures
        segment_texts(r@) == segments(raw@),
{
    let chars = chars_of(raw);
    let mut out: Vec<Segment<'_>> = Vec::new();
    let mut plain_start: usize = 0;
    let mut i: usize = 0;
    proof {
        assert(segment_texts(out@) + segments(raw@) == segments(raw@));
    }
    while i < chars.len()
        invariant
            chars@ == raw@,
            0 <= plain_start <= i <= chars@.len(),
            segment_texts(out@) + segments_from(raw@, plain_start as int, i as int) == segments(
                raw@,
            ),
        decreases chars@.len() - i,
    {
        if chars[i] != '"' {
            i += 1;
            continue;
        }
        proof {
            lemma_scan_quoted_bounds(raw@, i + 1);
        }
        match read_quoted(&chars, i + 1) {
            Some((content, end)) => {
                let ghost before = segment_texts(out@);
                let ghost added = plain(raw@.subrange(plain_start as int, i as int))
                    + seq![SegmentText::Quoted(content@)];
                if plain_start < i {
                    out.push(Segment::Plain(raw.substring_char(plain_start, i)));
                }
                out.push(Segment::Quoted(content));
                plain_start = end;
                i = end;
                proof {
                    assert(segment_texts(out@) == before + added);
                    let rest = segments_from(raw@, end as int, end as int);
                    assert(before + (added + rest) == (before + added) + rest);
                }
            },
            None => {
                let ghost before = segment_texts(out@);
                if plain_start < chars.len() {
                    out.push(Segment::Plain(raw.substring_char(plain_start, chars.len())));
                }
                proof {
                    assert(raw@.skip(plain_start as int) == raw@.subrange(
                        plain_start as int,
                        raw@.len() as int,
                    ));
                    assert(segment_texts(out@) == before + plain(raw@.skip(plain_start as int)));
                }
                return out;
            },
        }
    }
    let ghost before = segment_texts(out@);
    if plain_start < chars.len() {
        out.push(Segment::Plain(raw.substring_char(plain_start, chars.len())));
    }
    proof {
        assert(raw@.skip(plain_start as int) == raw@.subrange(
            plain_start as int,
            raw@.len() as int,
        ));
        assert(segment_texts(out@) == before + plain(raw@.skip(plain_start as int)));
    }
    out
}

// ---------------------------------------------------------------------------
// Groups and runs
// ---------------------------------------------------------------------------

/// How many characters before the first separator.
pub open spec fn group_len(s: Seq<char>) -> nat
    decreases s.len(),
{
    if s.len() == 0 || is_separator(s[0]) {
        0
    } else {
        1 + group_len(s.skip(1))
    }
}

/// The maximal stretches of `s` without a separator.
pub open spec fn groups(s: Seq<char>) -> Seq<Seq<char>>
    decreases s.len(),
{
    let n = group_len(s);
    if s.len() == 0 || n > s.len() {
        Seq::empty()
    } else if n == 0 {
        groups(s.skip(1))
    } else {
        seq![s.take(n as int)] + groups(s.skip(n as int))
    }
}

/// How many characters from the front on share the class of the first one.
pub open spec fn run_len(s: Seq<char>) -> nat
    decreases s.len(),
{
    if s.len() == 0 {
        0
    } else if s.len() == 1 || class_of(s[1]) != class_of(s[0]) {
        1
    } else {
        1 + run_len(s.skip(1))
    }
}

/// The maximal stretches of `s` of one class.
pub open spec fn runs(s: Seq<char>) -> Seq<Seq<char>>
    decreases s.len(),
{
    let n = run_len(s);
    if s.len() == 0 || n == 0 || n > s.len() {
        Seq::empty()
    } else {
        seq![s.take(n as int)] + runs(s.skip(n as int))
    }
}

proof fn lemma_group_len(s: Seq<char>, n: int)
    requires
        0 <= n <= s.len(),
        forall|k: int| 0 <= k < n ==> !is_separator(#[trigger] s[k]),
        n == s.len() || is_separator(s[n]),
    ensures
        group_len(s) == n,
    decreases n,
{
    if n > 0 {
        assert(s.skip(1).len() == s.len() - 1);
        assert forall|k: int| 0 <= k < n - 1 implies !is_separator(#[trigger] s.skip(1)[k]) by {
            assert(s.skip(1)[k] == s[k + 1]);
        }
        if n < s.len() {
            assert(s.skip(1)[n - 1] == s[n]);
        }
        lemma_group_len(s.skip(1), n - 1);
    }
}

proof fn lemma_run_len(s: Seq<char>, n: int)
    requires
        0 < n <= s.len(),
        forall|k: int| 0 <= k < n ==> class_of(#[trigger] s[k]) == class_of(s[0]),
        n == s.len() || class_of(s[n]) != class_of(s[0]),
    ensures
        run_len(s) == n,
    decreases n,
{
    if n > 1 {
        assert(class_of(s[1]) == class_of(s[0]));
        assert forall|k: int| 0 <= k < n - 1 implies class_of(#[trigger] s.skip(1)[k]) == class_of(
            s.skip(1)[0],
        ) by {
            assert(s.skip(1)[k] == s[k + 1]);
            assert(s.skip(1)[0] == s[1]);
        }
        if n < s.len() {
            assert(s.skip(1)[n - 1] == s[n]);
            assert(s.skip(1)[0] == s[1]);
        }
        lemma_run_len(s.skip(1), n - 1);
    } else if s.len() > 1 {
        assert(class_of(s[1]) != class_of(s[0]));
    }
}

/// Cuts `text` at its separators; empty pieces are left out.
pub fn split_groups(text: &str) -> (r: Vec<&str>)
    ensures
        text::slice_texts(r@) == groups(text@),
        forall|k: int| 0 <= k < r@.len() ==> !(#[trigger] r@[k])@.contains('\0'),
        query_laws::told_all(text@),
{
    let chars = chars_of(text);
    let mut out: Vec<&str> = Vec::new();
    let mut i: usize = 0;
    proof {
        assert(text@.skip(0) == text@);
        assert(text::slice_texts(out@) + groups(text@) == groups(text@));
    }
    while i < chars.len()
        invariant
            chars@ == text@,
            i <= chars@.len(),
            text::slice_texts(out@) + groups(text@.skip(i as int)) == groups(text@),
            forall|k: int| 0 <= k < out@.len() ==> !(#[trigger] out@[k])@.contains('\0'),
            forall|k: int| 0 <= k < i ==> query_laws::told(#[trigger] text@[k]),
        decreases chars@.len() - i,
    {
        let ghost rest = text@.skip(i as int);
        let mut j: usize = i;
        while j < chars.len() && classify(chars[j]) != CharClass::Separator
            invariant
                chars@ == text@,
                i <= j <= chars@.len(),
                forall|k: int|
                    i <= k < j ==> !is_separator(#[trigger] text@[k]) && text@[k] != '\0',
                forall|k: int| i <= k < j ==> query_laws::told(#[trigger] text@[k]),
            ensures
                i <= j <= chars@.len(),
                forall|k: int|
                    i <= k < j ==> !is_separator(#[trigger] text@[k]) && text@[k] != '\0',
                forall|k: int| i <= k < j ==> query_laws::told(#[trigger] text@[k]),
                j == chars@.len() || (is_separator(text@[j as int]) && query_laws::told(
                    text@[j as int],
                )),
            decreases chars@.len() - j,
        {
            j += 1;
        }
        proof {
            assert forall|k: int| 0 <= k < j - i implies !is_separator(#[trigger] rest[k]) by {
                assert(rest[k] == text@[i + k]);
            }
            lemma_group_len(rest, j - i);
            assert(rest.skip(j - i) == text@.skip(j as int));
            assert(rest.take(j - i) == text@.subrange(i as int, j as int));
        }
        let ghost before = text::slice_texts(out@);
        if i < j {
            let piece = text.substring_char(i, j);
            proof {
                if piece@.contains('\0') {
                    let m = choose|m: int| 0 <= m < piece@.len() && piece@[m] == '\0';
                    assert(text@[i + m] == '\0');
                }
            }
            out.push(piece);
            proof {
                let piece = text@.subrange(i as int, j as int);
                assert(text::slice_texts(out@) == before + seq![piece]);
                let later = groups(text@.skip(j as int));
                assert(before + (seq![piece] + later) == (before + seq![piece]) + later);
            }
            i = j;
        } else {
            proof {
                assert(rest.skip(1) == text@.skip(i + 1));
            }
            i += 1;
        }
    }
    proof {
        assert(text::slice_texts(out@) + Seq::<Seq<char>>::empty() == text::slice_texts(out@));
    }
    out
}

/// The texts of a list of runs.
pub open spec fn run_texts(v: Seq<Run<'_>>) -> Seq<Seq<char>> {
    Seq::new(v.len(), |i: int| v[i].text@)
}

/// Every run counts its own characters.
pub open spec fn counted(v: Seq<Run<'_>>) -> bool {
    forall|i: int| 0 <= i < v.len() ==> #[trigger] v[i].chars == v[i].text@.len()
}

/// Cuts a group where the class changes.
pub fn split_runs(group: &str) -> (r: Vec<Run<'_>>)
    ensures
        run_texts(r@) == runs(group@),
        counted(r@),
{
    let chars = chars_of(group);
    let mut out: Vec<Run<'_>> = Vec::new();
    let mut i: usize = 0;
    proof {
        assert(group@.skip(0) == group@);
        assert(run_texts(out@) + runs(group@) == runs(group@));
    }
    while i < chars.len()
        invariant
            chars@ == group@,
            i <= chars@.len(),
            run_texts(out@) + runs(group@.skip(i as int)) == runs(group@),
            counted(out@),
        decreases chars@.len() - i,
    {
        let ghost rest = group@.skip(i as int);
        let class = classify(chars[i]);
        let mut j: usize = i + 1;
        while j < chars.len() && classify(chars[j]) == class
            invariant
                chars@ == group@,
                i < j <= chars@.len(),
                class == class_of(group@[i as int]),
                forall|k: int| i <= k < j ==> class_of(#[trigger] group@[k]) == class,
            ensures
                i < j <= chars@.len(),
                forall|k: int| i <= k < j ==> class_of(#[trigger] group@[k]) == class,
                j == chars@.len() || class_of(group@[j as int]) != class,
            decreases chars@.len() - j,
        {
            j += 1;
        }
        proof {
            assert(rest[0] == group@[i as int]);
            assert forall|k: int| 0 <= k < j - i implies class_of(#[trigger] rest[k]) == class_of(
                rest[0],
            ) by {
                assert(rest[k] == group@[i + k]);
            }
            lemma_run_len(rest, j - i);
            assert(rest.skip(j - i) == group@.skip(j as int));
            assert(rest.take(j - i) == group@.subrange(i as int, j as int));
        }
        let ghost before = run_texts(out@);
        out.push(Run { text: group.substring_char(i, j), chars: j - i });
        proof {
            let piece = group@.subrange(i as int, j as int);
            assert(run_texts(out@) == before + seq![piece]);
            let later = runs(group@.skip(j as int));
            assert(before + (seq![piece] + later) == (before + seq![piece]) + later);
        }
        i = j;
    }
    proof {
        assert(run_texts(out@) + Seq::<Seq<char>>::empty() == run_texts(out@));
    }
    out
}


// ---------------------------------------------------------------------------
// Phrases of a group
// ---------------------------------------------------------------------------

/// The characters of a list of runs, one after the other.
pub open spec fn joined(rs: Seq<Seq<char>>) -> Seq<char>
    decreases rs.len(),
{
    if rs.len() == 0 {
        Seq::empty()
    } else {
        joined(rs.drop_last()) + rs.last()
    }
}

/// Where the unit ends that has gathered `acc` characters before run `j`: as
/// soon as it holds the fewest characters that a phrase needs. `None` where
/// the runs give out first.
pub open spec fn unit_end(rs: Seq<Seq<char>>, j: int, acc: nat) -> Option<int>
    decreases rs.len() - j,
{
    if acc >= MIN_PHRASE_CHARS {
        Some(j)
    } else if j < 0 || j >= rs.len() {
        None
    } else {
        unit_end(rs, j + 1, acc + rs[j].len())
    }
}

/// The phrases of the unit `a..b` by itself: its runs joined, and then its last
/// run where that is long enough alone and others were joined in front of it.
pub open spec fn unit_phrases(rs: Seq<Seq<char>>, a: int, b: int) -> Seq<Seq<char>> {
    let whole = seq![joined(rs.subrange(a, b))];
    if b - a > 1 && rs[b - 1].len() >= MIN_PHRASE_CHARS {
        whole.push(rs[b - 1])
    } else {
        whole
    }
}

/// The phrases of the runs from `i` on. Units are formed from left to right;
/// runs left over at the end, too short for a unit, extend the last unit by a
/// phrase of its own in front of those that the unit gives anyway.
pub open spec fn phrases_from(rs: Seq<Seq<char>>, i: int) -> Seq<Seq<char>>
    decreases rs.len() - i,
{
    if i < 0 || i >= rs.len() {
        Seq::empty()
    } else {
        match unit_end(rs, i, 0) {
            None => Seq::empty(),
            Some(j) => if j <= i || j > rs.len() {
                Seq::empty()
            } else if j < rs.len() && unit_end(rs, j, 0) is None {
                seq![joined(rs.subrange(i, rs.len() as int))] + unit_phrases(rs, i, j)
            } else {
                unit_phrases(rs, i, j) + phrases_from(rs, j)
            },
        }
    }
}

/// The phrases of one group, given its runs.
pub open spec fn group_phrases(rs: Seq<Seq<char>>) -> Seq<Seq<char>> {
    phrases_from(rs, 0)
}

proof fn lemma_unit_end_bounds(rs: Seq<Seq<char>>, j: int, acc: nat)
    requires
        0 <= j <= rs.len(),
        acc < MIN_PHRASE_CHARS,
    ensures
        unit_end(rs, j, acc) matches Some(e) ==> j < e <= rs.len(),
    decreases rs.len() - j,
{
    if j < rs.len() {
        if acc + rs[j].len() < MIN_PHRASE_CHARS {
            lemma_unit_end_bounds(rs, j + 1, acc + rs[j].len());
        }
    }
}

/// Finds where the unit that starts at run `i` ends.
fn find_unit_end(runs: &[Run<'_>], i: usize) -> (r: Option<usize>)
    requires
        i < runs@.len(),
        counted(runs@),
    ensures
        match (r, unit_end(run_texts(runs@), i as int, 0)) {
            (Some(j), Some(e)) => j == e && i < j <= runs@.len(),
            (None, None) => true,
            _ => false,
        },
{
    let ghost rs = run_texts(runs@);
    proof {
        lemma_unit_end_bounds(rs, i as int, 0);
    }
    let mut acc: usize = 0;
    let mut j: usize = i;
    while j < runs.len()
        invariant
            rs == run_texts(runs@),
            counted(runs@),
            i <= j <= runs@.len(),
            acc < MIN_PHRASE_CHARS,
            unit_end(rs, i as int, 0) == unit_end(rs, j as int, acc as nat),
        decreases runs@.len() - j,
    {
        assert(rs[j as int].len() == runs@[j as int].chars);
        if runs[j].chars >= MIN_PHRASE_CHARS - acc {
            assert(unit_end(rs, j + 1, acc as nat + rs[j as int].len()) == Some(j + 1));
            return Some(j + 1);
        }
        acc += runs[j].chars;
        j += 1;
    }
    None
}

/// The texts of the runs, one after the other.
pub fn concat(rs: &[Run<'_>]) -> (r: String)
    ensures
        r@ == joined(run_texts(rs@)),
{
    let ghost all = run_texts(rs@);
    let mut out = String::new();
    let mut k: usize = 0;
    while k < rs.len()
        invariant
            all == run_texts(rs@),
            k <= rs@.len(),
            out@ == joined(all.take(k as int)),
        decreases rs@.len() - k,
    {
        out.append(rs[k].text);
        k += 1;
        proof {
            assert(all.take(k as int).drop_last() == all.take(k - 1));
            assert(all.take(k as int).last() == rs@[k - 1].text@);
        }
    }
    proof {
        assert(all.take(rs@.len() as int) == all);
    }
    out
}

/// The joined text of the runs `a..b`.
fn concat_range(runs: &[Run<'_>], a: usize, b: usize) -> (r: String)
    requires
        a <= b <= runs@.len(),
    ensures
        r@ == joined(run_texts(runs@).subrange(a as int, b as int)),
{
    let part = vstd::slice::slice_subrange(runs, a, b);
    proof {
        assert(run_texts(part@) == run_texts(runs@).subrange(a as int, b as int));
    }
    concat(part)
}

/// The phrases of one group.
pub fn emit_group(runs: &[Run<'_>]) -> (r: Vec<String>)
    requires
        counted(runs@),
    ensures
        text::texts(r@) == group_phrases(run_texts(runs@)),
{
    let ghost rs = run_texts(runs@);
    let n = runs.len();
    let mut out: Vec<String> = Vec::new();
    let mut i: usize = 0;
    proof {
        assert(text::texts(out@) + phrases_from(rs, 0) == phrases_from(rs, 0));
    }
    while i < n
        invariant
            rs == run_texts(runs@),
            counted(runs@),
            n == runs@.len(),
            i <= n,
            text::texts(out@) + phrases_from(rs, i as int) == phrases_from(rs, 0),
        decreases n - i,
    {
        let ghost before = text::texts(out@);
        let j = match find_unit_end(runs, i) {
            Some(j) => j,
            None => {
                proof {
                    assert(before + Seq::<Seq<char>>::empty() == before);
                }
                return out;
            },
        };
        let tail_is_short = j < n && find_unit_end(runs, j).is_none();
        if tail_is_short {
            out.push(concat_range(runs, i, n));
        }
        out.push(concat_range(runs, i, j));
        if j - i > 1 && runs[j - 1].chars >= MIN_PHRASE_CHARS {
            out.push(runs[j - 1].text.to_owned());
        }
        proof {
            assert(rs[j - 1].len() == runs@[j - 1].chars);
            let own = unit_phrases(rs, i as int, j as int);
            if tail_is_short {
                let extended = seq![joined(rs.subrange(i as int, n as int))];
                assert(text::texts(out@) == before + (extended + own));
            } else {
                assert(text::texts(out@) == before + own);
                let rest = phrases_from(rs, j as int);
                assert(before + (own + rest) == (before + own) + rest);
            }
        }
        if tail_is_short {
            return out;
        }
        i = j;
    }
    proof {
        assert(text::texts(out@) + Seq::<Seq<char>>::empty() == text::texts(out@));
    }
    out
}

// ---------------------------------------------------------------------------
// Duplicates and the cap
// ---------------------------------------------------------------------------

/// The elements of `s` in order of first occurrence, each once.
pub open spec fn distinct(s: Seq<Seq<char>>) -> Seq<Seq<char>>
    decreases s.len(),
{
    if s.len() == 0 {
        s
    } else {
        let d = distinct(s.drop_last());
        if d.contains(s.last()) {
            d
        } else {
            d.push(s.last())
        }
    }
}

/// At most `MAX_PHRASES` elements from the front.
pub open spec fn capped(s: Seq<Seq<char>>) -> Seq<Seq<char>> {
    if s.len() <= MAX_PHRASES {
        s
    } else {
        s.take(MAX_PHRASES as int)
    }
}

/// Drops repeated phrases, then those past the cap. The second value counts
/// the distinct phrases that the cap dropped.
pub fn dedup_and_cap_counted(phrases: Vec<String>) -> (r: (Vec<String>, usize))
    ensures
        text::texts(r.0@) == capped(distinct(text::texts(phrases@))),
        r.1 == distinct(text::texts(phrases@)).len() - r.0@.len(),
{
    let ghost all = text::texts(phrases@);
    let mut seen: Vec<String> = Vec::new();
    let mut kept: Vec<String> = Vec::new();
    let mut dropped: usize = 0;
    let mut k: usize = 0;
    while k < phrases.len()
        invariant
            all == text::texts(phrases@),
            k <= phrases@.len(),
            text::texts(seen@) == distinct(all.take(k as int)),
            text::texts(kept@) == capped(text::texts(seen@)),
            dropped == seen@.len() - kept@.len(),
            dropped <= k,
        decreases phrases@.len() - k,
    {
        let ghost before = text::texts(seen@);
        proof {
            assert(all.take(k + 1).drop_last() == all.take(k as int));
            assert(all.take(k + 1).last() == phrases@[k as int]@);
        }
        if !contains_text(&seen, &phrases[k]) {
            seen.push(phrases[k].clone());
            proof {
                assert(text::texts(seen@) == before.push(phrases@[k as int]@));
            }
            if kept.len() == MAX_PHRASES {
                dropped += 1;
                proof {
                    assert(text::texts(seen@).take(MAX_PHRASES as int) == before.take(
                        MAX_PHRASES as int,
                    ));
                }
            } else {
                let ghost kept_before = text::texts(kept@);
                kept.push(phrases[k].clone());
                proof {
                    assert(text::texts(kept@) == kept_before.push(phrases@[k as int]@));
                    assert(text::texts(seen@).take(text::texts(seen@).len() as int) == text::texts(seen@));
                }
            }
        }
        k += 1;
    }
    proof {
        assert(all.take(phrases@.len() as int) == all);
    }
    (kept, dropped)
}

/// Drops repeated phrases, then those past the cap.
pub fn dedup_and_cap(phrases: Vec<String>) -> (r: Vec<String>)
    ensures
        text::texts(r@) == capped(distinct(text::texts(phrases@))),
{
    let (kept, _dropped) = dedup_and_cap_counted(phrases);
    kept
}

// ---------------------------------------------------------------------------
// The expression
// ---------------------------------------------------------------------------

/// The phrases of a list of groups.
pub open spec fn groups_phrases(gs: Seq<Seq<char>>) -> Seq<Seq<char>>
    decreases gs.len(),
{
    if gs.len() == 0 {
        Seq::empty()
    } else {
        groups_phrases(gs.drop_last()) + group_phrases(runs(gs.last()))
    }
}

/// The phrases of one segment. A quoted region is one phrase, unless it is too
/// short to match or holds a NUL, which would end the expression early.
pub open spec fn segment_phrases(seg: SegmentText) -> Seq<Seq<char>> {
    match seg {
        SegmentText::Quoted(content) => if content.contains('\0') || content.len()
            < MIN_PHRASE_CHARS {
            Seq::empty()
        } else {
            seq![content]
        },
        SegmentText::Plain(text) => groups_phrases(groups(text)),
    }
}

/// The phrases of a list of segments.
pub open spec fn segments_phrases(segs: Seq<SegmentText>) -> Seq<Seq<char>>
    decreases segs.len(),
{
    if segs.len() == 0 {
        Seq::empty()
    } else {
        segments_phrases(segs.drop_last()) + segment_phrases(segs.last())
    }
}

/// The phrases that a query is searched for.
pub open spec fn phrases_of(raw: Seq<char>) -> Seq<Seq<char>> {
    capped(distinct(segments_phrases(segments(raw))))
}

/// How many distinct phrases of a query the cap drops.
pub open spec fn phrases_dropped(raw: Seq<char>) -> int {
    distinct(segments_phrases(segments(raw))).len() - phrases_of(raw).len()
}

/// `s` with every quote doubled.
pub open spec fn doubled(s: Seq<char>) -> Seq<char>
    decreases s.len(),
{
    if s.len() == 0 {
        s
    } else if s.last() == '"' {
        doubled(s.drop_last()).push('"').push('"')
    } else {
        doubled(s.drop_last()).push(s.last())
    }
}

/// `s` as a quoted phrase of the expression.
pub open spec fn quoted(s: Seq<char>) -> Seq<char> {
    (seq!['"'] + doubled(s)).push('"')
}

/// The phrases, quoted and joined with `OR`.
pub open spec fn or_joined(ps: Seq<Seq<char>>) -> Seq<char>
    decreases ps.len(),
{
    if ps.len() == 0 {
        Seq::empty()
    } else if ps.len() == 1 {
        quoted(ps[0])
    } else {
        or_joined(ps.drop_last()) + seq![' ', 'O', 'R', ' '] + quoted(ps.last())
    }
}

/// The whole query as one phrase, for a query that gives no other: `None`
/// where it is too short to match or holds a NUL.
pub open spec fn whole_query(raw: Seq<char>) -> Option<Seq<char>> {
    let t = text::trimmed(raw);
    if t.len() < MIN_PHRASE_CHARS || t.contains('\0') {
        None
    } else {
        Some(quoted(t))
    }
}

/// The MATCH expression of a query, or `None` where there is nothing to match.
pub open spec fn expression(raw: Seq<char>) -> Option<Seq<char>> {
    let ps = phrases_of(raw);
    if ps.len() == 0 {
        whole_query(raw)
    } else {
        Some(or_joined(ps))
    }
}

/// Quotes a phrase.
pub fn quote(s: &str) -> (r: String)
    ensures
        r@ == quoted(s@),
{
    let chars = chars_of(s);
    let mut out = String::new();
    out.push('"');
    let mut k: usize = 0;
    proof {
        assert(out@ == seq!['"'] + doubled(chars@.take(0)));
    }
    while k < chars.len()
        invariant
            chars@ == s@,
            k <= chars@.len(),
            out@ == seq!['"'] + doubled(chars@.take(k as int)),
        decreases chars@.len() - k,
    {
        proof {
            assert(chars@.take(k + 1).drop_last() == chars@.take(k as int));
        }
        if chars[k] == '"' {
            out.push('"');
        }
        out.push(chars[k]);
        k += 1;
        proof {
            assert(out@ == seq!['"'] + doubled(chars@.take(k as int)));
        }
    }
    proof {
        assert(chars@.take(chars@.len() as int) == s@);
    }
    out.push('"');
    out
}

/// The whole query as one phrase, for a query that gives no other.
pub fn fallback_whole_query(raw: &str) -> (r: Option<String>)
    ensures
        text::option_text(r) == whole_query(raw@),
        r matches Some(e) ==> !e@.contains('\0'),
{
    let t = trim(raw);
    if t.unicode_len() < MIN_PHRASE_CHARS || contains_char(t, '\0') {
        None
    } else {
        proof {
            lemma_quoted_no_nul(t@);
        }
        Some(quote(t))
    }
}

/// No text of the list holds a NUL.
pub open spec fn no_nul(ps: Seq<Seq<char>>) -> bool {
    forall|k: int| 0 <= k < ps.len() ==> !(#[trigger] ps[k]).contains('\0')
}

proof fn lemma_group_phrases_no_nul(group: Seq<char>)
    requires
        !group.contains('\0'),
    ensures
        no_nul(group_phrases(runs(group))),
{
    fts_laws::group_phrases_are_pieces(group);
    let ps = group_phrases(runs(group));
    assert forall|k: int| 0 <= k < ps.len() implies !(#[trigger] ps[k]).contains('\0') by {
        if ps[k].contains('\0') {
            let m = choose|m: int| 0 <= m < ps[k].len() && ps[k][m] == '\0';
            assert(fts_laws::good_piece(ps[k], group));
            let (a, b) = choose|a: int, b: int|
                0 <= a <= b <= group.len() && #[trigger] group.subrange(a, b) == ps[k];
            assert(group[a + m] == '\0');
        }
    }
}

proof fn lemma_distinct_no_nul(ps: Seq<Seq<char>>)
    requires
        no_nul(ps),
    ensures
        no_nul(capped(distinct(ps))),
{
    fts_laws::dedup_keeps_each_phrase_once(ps);
    let d = distinct(ps);
    let c = capped(d);
    assert forall|k: int| 0 <= k < c.len() implies !(#[trigger] c[k]).contains('\0') by {
        assert(d.contains(d[k]));
        assert(d.to_set().contains(c[k]));
        assert(ps.to_set().contains(c[k]));
        let m = choose|m: int| 0 <= m < ps.len() && ps[m] == c[k];
        assert(!ps[m].contains('\0'));
    }
}

proof fn lemma_quoted_no_nul(p: Seq<char>)
    requires
        !p.contains('\0'),
    ensures
        !quoted(p).contains('\0'),
    decreases p.len(),
{
    if p.len() > 0 {
        let t = p.drop_last();
        assert(p.contains(p.last()));
        if t.contains('\0') {
            let m = choose|m: int| 0 <= m < t.len() && t[m] == '\0';
            assert(p[m] == '\0');
        }
        lemma_quoted_no_nul(t);
        let shorter = quoted(t);
        let q = quoted(p);
        if q.contains('\0') {
            let m = choose|m: int| 0 <= m < q.len() && q[m] == '\0';
            if m < shorter.len() - 1 {
                assert(shorter[m] == q[m]);
                assert(shorter.contains('\0'));
            }
        }
    }
}

proof fn lemma_or_joined_no_nul(ps: Seq<Seq<char>>)
    requires
        no_nul(ps),
    ensures
        !or_joined(ps).contains('\0'),
    decreases ps.len(),
{
    if ps.len() > 0 {
        lemma_quoted_no_nul(ps.last());
        if ps.len() > 1 {
            lemma_or_joined_no_nul(ps.drop_last());
            let a = or_joined(ps.drop_last());
            let b = seq![' ', 'O', 'R', ' '];
            let c = quoted(ps.last());
            let e = or_joined(ps);
            if e.contains('\0') {
                let m = choose|m: int| 0 <= m < e.len() && e[m] == '\0';
                if m < a.len() {
                    assert(a[m] == '\0');
                } else if m < a.len() + b.len() {
                    assert(b[m - a.len()] == '\0');
                } else {
                    assert(c[m - a.len() - b.len()] == '\0');
                }
            }
        }
    }
}

/// The phrases of one segment.
fn phrases_of_segment(seg: &Segment<'_>) -> (r: Vec<String>)
    ensures
        text::texts(r@) == segment_phrases(seg@),
        no_nul(text::texts(r@)),
        seg@ matches SegmentText::Plain(t) ==> query_laws::told_all(t),
{
    let mut out: Vec<String> = Vec::new();
    match seg {
        Segment::Quoted(content) => {
            if contains_char(content.as_str(), '\0') || content.as_str().unicode_len()
                < MIN_PHRASE_CHARS {
                return out;
            }
            out.push(content.clone());
        },
        Segment::Plain(text) => {
            let gs = split_groups(text);
            let mut k: usize = 0;
            proof {
                assert(text::texts(out@) == Seq::<Seq<char>>::empty());
            }
            let ghost all = text::slice_texts(gs@);
            while k < gs.len()
                invariant
                    all == text::slice_texts(gs@),
                    k <= gs@.len(),
                    text::texts(out@) == groups_phrases(all.take(k as int)),
                    no_nul(text::texts(out@)),
                    forall|m: int| 0 <= m < gs@.len() ==> !(#[trigger] gs@[m])@.contains('\0'),
                decreases gs@.len() - k,
            {
                let ghost before = text::texts(out@);
                let group_runs = split_runs(gs[k]);
                let mut more = emit_group(group_runs.as_slice());
                let ghost added = text::texts(more@);
                out.append(&mut more);
                proof {
                    lemma_group_phrases_no_nul(gs@[k as int]@);
                }
                k += 1;
                proof {
                    assert(text::texts(out@) == before + added);
                    assert(all.take(k as int).drop_last() == all.take(k - 1));
                    assert(all.take(k as int).last() == gs@[k - 1]@);
                }
            }
            proof {
                assert(all.take(gs@.len() as int) == all);
            }
        },
    }
    out
}

/// The contents of the phrases that the query is searched for, and how many
/// distinct phrases the cap dropped.
pub fn query_phrases_counted(raw: &str) -> (r: (Vec<String>, usize))
    ensures
        text::texts(r.0@) == phrases_of(raw@),
        no_nul(text::texts(r.0@)),
        r.1 == phrases_dropped(raw@),
        query_laws::ascii_query(raw@) ==> forall|p: Seq<char>| #[trigger]
            text::texts(r.0@).contains(p) ==> query_laws::word_of(raw@, p),
        query_laws::ascii_query(raw@) && r.1 == 0 ==> forall|p: Seq<char>|
            query_laws::word_of(raw@, p) ==> #[trigger] text::texts(r.0@).contains(p),
{
    let segs = split_quotes(raw);
    let ghost all = segment_texts(segs@);
    let mut phrases: Vec<String> = Vec::new();
    let mut k: usize = 0;
    while k < segs.len()
        invariant
            all == segment_texts(segs@),
            k <= segs@.len(),
            text::texts(phrases@) == segments_phrases(all.take(k as int)),
            no_nul(text::texts(phrases@)),
            forall|m: int|
                0 <= m < k ==> ((#[trigger] all[m]) matches SegmentText::Plain(t)
                    ==> query_laws::told_all(t)),
        decreases segs@.len() - k,
    {
        let ghost before = text::texts(phrases@);
        let mut more = phrases_of_segment(&segs[k]);
        let ghost added = text::texts(more@);
        phrases.append(&mut more);
        k += 1;
        proof {
            assert(text::texts(phrases@) == before + added);
            assert(all.take(k as int).drop_last() == all.take(k - 1));
            assert(all.take(k as int).last() == segs@[k - 1]@);
        }
    }
    proof {
        assert(all.take(segs@.len() as int) == all);
        lemma_distinct_no_nul(text::texts(phrases@));
        if query_laws::ascii_query(raw@) {
            lemma_ascii_phrases(raw@, all);
        }
    }
    dedup_and_cap_counted(phrases)
}

/// The phrases of a query in ASCII are its longer words, once the classes of all plain
/// characters are known.
proof fn lemma_ascii_phrases(raw: Seq<char>, all: Seq<SegmentText>)
    requires
        query_laws::ascii_query(raw),
        all == segments(raw),
        forall|m: int|
            0 <= m < all.len() ==> ((#[trigger] all[m]) matches SegmentText::Plain(t)
                ==> query_laws::told_all(t)),
    ensures
        forall|p: Seq<char>| #[trigger]
            phrases_of(raw).contains(p) ==> query_laws::word_of(raw, p),
        phrases_dropped(raw) == 0 ==> forall|p: Seq<char>|
            query_laws::word_of(raw, p) ==> #[trigger] phrases_of(raw).contains(p),
{
    assert(!raw.contains('"')) by {
        if raw.contains('"') {
            let k = choose|k: int| 0 <= k < raw.len() && raw[k] == '"';
            assert(raw[k] != '"');
        }
    }
    query_laws::without_quotes_all_is_plain(raw);
    assert(query_laws::told_all(raw)) by {
        if raw.len() > 0 {
            assert(all[0] == SegmentText::Plain(raw));
        }
    }
    let words = distinct(segments_phrases(all));
    assert forall|p: Seq<char>| words.contains(p) <==> query_laws::word_of(raw, p) by {
        query_laws::ascii_queries_are_searched_for_their_words(raw, p);
    }
    query_laws::the_first_phrases_are_kept(raw);
    assert forall|p: Seq<char>| #[trigger] phrases_of(raw).contains(p) implies query_laws::word_of(
        raw,
        p,
    ) by {
        let i = choose|i: int| 0 <= i < phrases_of(raw).len() && phrases_of(raw)[i] == p;
        assert(words[i] == p);
        assert(words.contains(p));
    }
}

/// The contents of the phrases that the query is searched for.
pub fn query_phrases(raw: &str) -> (r: Vec<String>)
    ensures
        text::texts(r@) == phrases_of(raw@),
        no_nul(text::texts(r@)),
        query_laws::ascii_query(raw@) ==> forall|p: Seq<char>| #[trigger]
            text::texts(r@).contains(p) ==> query_laws::word_of(raw@, p),
        query_laws::ascii_query(raw@) && r@.len() < 32 ==> forall|p: Seq<char>|
            query_laws::word_of(raw@, p) ==> #[trigger] text::texts(r@).contains(p),
{
    let (kept, _dropped) = query_phrases_counted(raw);
    proof {
        query_laws::the_first_phrases_are_kept(raw@);
    }
    kept
}

/// Compiles a query into a MATCH expression. `None` means that there is
/// nothing to hand to the full-text index. The expression never holds a NUL,
/// which would end it early.
pub fn build_fts_query(raw: &str) -> (r: Option<String>)
    ensures
        text::option_text(r) == expression(raw@),
        r matches Some(e) ==> !e@.contains('\0'),
{
    let phrases = query_phrases(raw);
    let ghost ps = text::texts(phrases@);
    if phrases.len() == 0 {
        return fallback_whole_query(raw);
    }
    let mut out = quote(phrases[0].as_str());
    let mut k: usize = 1;
    proof {
        assert(ps.take(1)[0] == ps[0]);
    }
    while k < phrases.len()
        invariant
            ps == text::texts(phrases@),
            1 <= k <= phrases@.len(),
            out@ == or_joined(ps.take(k as int)),
        decreases phrases@.len() - k,
    {
        out.append(" OR ");
        let q = quote(phrases[k].as_str());
        out.append(q.as_str());
        k += 1;
        proof {
            reveal_strlit(" OR ");
            assert(" OR "@ == seq![' ', 'O', 'R', ' ']);
            assert(ps.take(k as int).drop_last() == ps.take(k - 1));
            assert(ps.take(k as int).last() == phrases@[k - 1]@);
        }
    }
    proof {
        assert(ps.take(phrases@.len() as int) == ps);
        lemma_or_joined_no_nul(ps);
    }
    Some(out)
}

} // verus!
