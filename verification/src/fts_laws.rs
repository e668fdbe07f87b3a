//! What holds of every query: nothing of it is lost when it is cut, every
//! phrase is a piece of it that the index can match, and the expression reads
//! back as the phrases it was made of.

use crate::fts_query;
use crate::fts_query::SegmentText;
use crate::fts_query::{MAX_PHRASES, MIN_PHRASE_CHARS};
use vstd::prelude::*;

verus! {

/// `p` stands somewhere in `s` in one piece.
pub open spec fn substring(p: Seq<char>, s: Seq<char>) -> bool {
    exists|a: int, b: int| 0 <= a <= b <= s.len() && #[trigger] s.subrange(a, b) == p
}

proof fn lemma_substring_transitive(p: Seq<char>, q: Seq<char>, s: Seq<char>)
    requires
        substring(p, q),
        substring(q, s),
    ensures
        substring(p, s),
{
    let (a, b) = choose|a: int, b: int| 0 <= a <= b <= q.len() && #[trigger] q.subrange(a, b) == p;
    let (c, d) = choose|c: int, d: int| 0 <= c <= d <= s.len() && #[trigger] s.subrange(c, d) == q;
    assert(s.subrange(c + a, c + b) == p);
}

/// `s` holds no separator.
pub open spec fn unseparated(s: Seq<char>) -> bool {
    forall|k: int| 0 <= k < s.len() ==> !fts_query::is_separator(#[trigger] s[k])
}

// ---------------------------------------------------------------------------
// Quotes
// ---------------------------------------------------------------------------

/// One quote doubled, any other character alone.
spec fn doubled_one(c: char) -> Seq<char> {
    if c == '"' {
        seq!['"', '"']
    } else {
        seq![c]
    }
}

proof fn lemma_doubled_front(c: char, s: Seq<char>)
    ensures
        fts_query::doubled(seq![c] + s) == doubled_one(c) + fts_query::doubled(s),
    decreases s.len(),
{
    let t = seq![c] + s;
    if s.len() == 0 {
        assert(t.drop_last() == s);
        assert(t.last() == c);
        assert(fts_query::doubled(t) == doubled_one(c) + fts_query::doubled(s));
    } else {
        assert(t.drop_last() == seq![c] + s.drop_last());
        assert(t.last() == s.last());
        lemma_doubled_front(c, s.drop_last());
        assert(fts_query::doubled(t) == doubled_one(c) + fts_query::doubled(s));
    }
}

proof fn lemma_scan_reads_doubled(s: Seq<char>, i: int)
    requires
        0 <= i,
    ensures
        fts_query::scan_quoted(s, i) matches Some((content, end)) ==> i < end <= s.len()
            && s.subrange(i, end) == fts_query::doubled(content).push('"'),
    decreases s.len() - i,
{
    if i < s.len() {
        if s[i] != '"' {
            lemma_scan_reads_doubled(s, i + 1);
            if let Some((content, end)) = fts_query::scan_quoted(s, i + 1) {
                lemma_doubled_front(s[i], content);
                assert(s.subrange(i, end) == seq![s[i]] + s.subrange(i + 1, end));
                assert(s.subrange(i, end) == fts_query::doubled(seq![s[i]] + content).push('"'));
            }
        } else if i + 1 < s.len() && s[i + 1] == '"' {
            lemma_scan_reads_doubled(s, i + 2);
            if let Some((content, end)) = fts_query::scan_quoted(s, i + 2) {
                lemma_doubled_front('"', content);
                assert(s.subrange(i, end) == seq!['"', '"'] + s.subrange(i + 2, end));
                assert(s.subrange(i, end) == fts_query::doubled(seq!['"'] + content).push('"'));
            }
        } else {
            assert(s.subrange(i, i + 1) == Seq::<char>::empty().push('"'));
        }
    }
}

/// A segment as it stands in a query.
pub open spec fn written(seg: SegmentText) -> Seq<char> {
    match seg {
        SegmentText::Quoted(content) => fts_query::quoted(content),
        SegmentText::Plain(text) => text,
    }
}

/// Segments as they stand in a query, one after the other.
pub open spec fn written_all(segs: Seq<SegmentText>) -> Seq<char>
    decreases segs.len(),
{
    if segs.len() == 0 {
        Seq::empty()
    } else {
        written(segs[0]) + written_all(segs.skip(1))
    }
}

proof fn lemma_written_all_append(a: Seq<SegmentText>, b: Seq<SegmentText>)
    ensures
        written_all(a + b) == written_all(a) + written_all(b),
    decreases a.len(),
{
    if a.len() == 0 {
        assert(a + b == b);
        assert(written_all(a + b) == written_all(a) + written_all(b));
    } else {
        assert((a + b).skip(1) == a.skip(1) + b);
        lemma_written_all_append(a.skip(1), b);
        assert(written_all(a + b) == written_all(a) + written_all(b));
    }
}

proof fn lemma_written_one(seg: SegmentText)
    ensures
        written_all(seq![seg]) == written(seg),
{
    reveal_with_fuel(written_all, 2);
    assert(written_all(seq![seg]) == written(seg));
}

proof fn lemma_written_plain(s: Seq<char>)
    ensures
        written_all(fts_query::plain(s)) == s,
{
    if s.len() > 0 {
        let one = seq![SegmentText::Plain(s)];
        lemma_written_one(one[0]);
        assert(one == seq![one[0]]);
    } else {
        assert(s == Seq::<char>::empty());
    }
}

proof fn lemma_segments_written(s: Seq<char>, start: int, i: int)
    requires
        0 <= start <= i <= s.len(),
    ensures
        written_all(fts_query::segments_from(s, start, i)) == s.skip(start),
    decreases s.len() - i,
{
    if i >= s.len() {
        lemma_written_plain(s.skip(start));
    } else if s[i] != '"' {
        lemma_segments_written(s, start, i + 1);
    } else {
        lemma_scan_reads_doubled(s, i + 1);
        match fts_query::scan_quoted(s, i + 1) {
            None => {
                lemma_written_plain(s.skip(start));
            },
            Some((content, end)) => {
                let head = fts_query::plain(s.subrange(start, i));
                let mid = seq![SegmentText::Quoted(content)];
                let rest = fts_query::segments_from(s, end, end);
                lemma_written_plain(s.subrange(start, i));
                lemma_segments_written(s, end, end);
                lemma_written_all_append(head, mid);
                lemma_written_all_append(head + mid, rest);
                lemma_written_one(mid[0]);
                assert(mid == seq![mid[0]]);
                assert(fts_query::quoted(content) == seq!['"'] + s.subrange(i + 1, end));
                assert(s.subrange(i, end) == seq!['"'] + s.subrange(i + 1, end));
                assert(s.skip(start) == s.subrange(start, i) + s.subrange(i, end) + s.skip(end));
            },
        }
    }
}

/// Cutting a query at its quotes loses nothing: the segments, written one after
/// the other, are the query again.
pub proof fn segments_keep_the_query(raw: Seq<char>)
    ensures
        written_all(fts_query::segments(raw)) == raw,
{
    lemma_segments_written(raw, 0, 0);
    assert(raw.skip(0) == raw);
}

proof fn lemma_scan_of_doubled(pre: Seq<char>, p: Seq<char>, post: Seq<char>)
    requires
        post.len() == 0 || post[0] != '"',
    ensures
        fts_query::scan_quoted(
            pre + fts_query::doubled(p).push('"') + post,
            pre.len() as int,
        ) == Some((p, (pre.len() + fts_query::doubled(p).len() + 1) as int)),
    decreases p.len(),
{
    let s = pre + fts_query::doubled(p).push('"') + post;
    let n = pre.len() as int;
    if p.len() == 0 {
        assert(s[n] == '"');
        assert(n + 1 < s.len() ==> s[n + 1] == post[0]);
        assert(p == Seq::<char>::empty());
    } else {
        let c = p[0];
        let rest = p.skip(1);
        assert(p == seq![c] + rest);
        lemma_doubled_front(c, rest);
        let longer = pre + doubled_one(c);
        assert(s == longer + fts_query::doubled(rest).push('"') + post);
        lemma_scan_of_doubled(longer, rest, post);
        assert(s[n] == c);
        if c == '"' {
            assert(s[n + 1] == '"');
        }
    }
}

/// A quoted phrase reads back as exactly the phrase that was quoted, whatever
/// quotes it holds.
pub proof fn quoting_is_undone_by_reading(p: Seq<char>)
    ensures
        fts_query::segments(fts_query::quoted(p)) == seq![SegmentText::Quoted(p)],
{
    let q = fts_query::quoted(p);
    lemma_scan_of_doubled(seq!['"'], p, Seq::empty());
    assert(q == seq!['"'] + fts_query::doubled(p).push('"') + Seq::<char>::empty());
    assert(q[0] == '"');
    let n = q.len() as int;
    assert(fts_query::scan_quoted(q, 1) == Some((p, n)));
    assert(q.subrange(0, 0) == Seq::<char>::empty());
    assert(q.skip(n) == Seq::<char>::empty());
    assert(fts_query::segments_from(q, n, n) == Seq::<SegmentText>::empty());
    assert(fts_query::segments(q) == seq![SegmentText::Quoted(p)]);
}

// ---------------------------------------------------------------------------
// Groups and runs
// ---------------------------------------------------------------------------

proof fn lemma_group_len_bounds(s: Seq<char>)
    ensures
        fts_query::group_len(s) <= s.len(),
        forall|k: int|
            0 <= k < fts_query::group_len(s) ==> !fts_query::is_separator(#[trigger] s[k]),
    decreases s.len(),
{
    if s.len() > 0 && !fts_query::is_separator(s[0]) {
        lemma_group_len_bounds(s.skip(1));
        assert forall|k: int| 0 <= k < fts_query::group_len(s) implies !fts_query::is_separator(
            #[trigger] s[k],
        ) by {
            if k > 0 {
                assert(s.skip(1)[k - 1] == s[k]);
            }
        }
    }
}

proof fn lemma_suffix_substring(s: Seq<char>, n: int, p: Seq<char>)
    requires
        0 <= n <= s.len(),
        substring(p, s.skip(n)),
    ensures
        substring(p, s),
{
    assert(s.skip(n) == s.subrange(n, s.len() as int));
    assert(substring(s.skip(n), s));
    lemma_substring_transitive(p, s.skip(n), s);
}

/// Every group is a non-empty piece of the text without a separator.
pub proof fn groups_are_unseparated_pieces(s: Seq<char>)
    ensures
        forall|k: int|
            0 <= k < fts_query::groups(s).len() ==> {
                let g = #[trigger] fts_query::groups(s)[k];
                g.len() > 0 && unseparated(g) && substring(g, s)
            },
    decreases s.len(),
{
    lemma_group_len_bounds(s);
    let n = fts_query::group_len(s) as int;
    if s.len() > 0 {
        let step = if n == 0 {
            1
        } else {
            n
        };
        let tail = fts_query::groups(s.skip(step));
        groups_are_unseparated_pieces(s.skip(step));
        assert forall|k: int| 0 <= k < fts_query::groups(s).len() implies {
            let g = #[trigger] fts_query::groups(s)[k];
            g.len() > 0 && unseparated(g) && substring(g, s)
        } by {
            let g = fts_query::groups(s)[k];
            if n > 0 && k == 0 {
                assert(g == s.take(n));
                assert(s.subrange(0, n) == g);
            } else {
                let m = if n == 0 {
                    k
                } else {
                    k - 1
                };
                assert(g == tail[m]);
                lemma_suffix_substring(s, step, g);
            }
        }
    }
}

proof fn lemma_run_len_bounds(s: Seq<char>)
    requires
        s.len() > 0,
    ensures
        0 < fts_query::run_len(s) <= s.len(),
        forall|k: int|
            0 <= k < fts_query::run_len(s) ==> fts_query::class_of(#[trigger] s[k])
                == fts_query::class_of(s[0]),
        fts_query::run_len(s) < s.len() ==> fts_query::class_of(s[fts_query::run_len(s) as int])
            != fts_query::class_of(s[0]),
    decreases s.len(),
{
    if s.len() > 1 && fts_query::class_of(s[1]) == fts_query::class_of(s[0]) {
        let t = s.skip(1);
        lemma_run_len_bounds(t);
        assert(t[0] == s[1]);
        assert forall|k: int| 0 <= k < fts_query::run_len(s) implies fts_query::class_of(
            #[trigger] s[k],
        ) == fts_query::class_of(s[0]) by {
            if k > 0 {
                assert(t[k - 1] == s[k]);
            }
        }
        if fts_query::run_len(s) < s.len() {
            assert(t[fts_query::run_len(t) as int] == s[fts_query::run_len(s) as int]);
        }
    }
}

proof fn lemma_joined_append(a: Seq<Seq<char>>, b: Seq<Seq<char>>)
    ensures
        fts_query::joined(a + b) == fts_query::joined(a) + fts_query::joined(b),
    decreases b.len(),
{
    if b.len() == 0 {
        assert(a + b == a);
        assert(fts_query::joined(a + b) == fts_query::joined(a) + fts_query::joined(b));
    } else {
        assert((a + b).drop_last() == a + b.drop_last());
        lemma_joined_append(a, b.drop_last());
        assert(fts_query::joined(a + b) == fts_query::joined(a) + fts_query::joined(b));
    }
}

proof fn lemma_joined_one(r: Seq<char>)
    ensures
        fts_query::joined(seq![r]) == r,
{
    reveal_with_fuel(fts_query::joined, 2);
    assert(fts_query::joined(seq![r]) == r);
}

/// A non-empty text of one class.
pub open spec fn uniform(r: Seq<char>) -> bool {
    r.len() > 0 && forall|m: int|
        0 <= m < r.len() ==> fts_query::class_of(#[trigger] r[m]) == fts_query::class_of(r[0])
}

/// Two texts that start with different classes.
pub open spec fn differ(r: Seq<char>, t: Seq<char>) -> bool {
    fts_query::class_of(r[0]) != fts_query::class_of(t[0])
}

proof fn lemma_first_run(s: Seq<char>)
    requires
        s.len() > 0,
    ensures
        ({
            let n = fts_query::run_len(s) as int;
            &&& 0 < n <= s.len()
            &&& fts_query::runs(s) == seq![s.take(n)] + fts_query::runs(s.skip(n))
            &&& uniform(s.take(n))
            &&& n < s.len() ==> differ(s.take(n), s.skip(n))
        }),
{
    lemma_run_len_bounds(s);
    let n = fts_query::run_len(s) as int;
    let first = s.take(n);
    assert forall|m: int| 0 <= m < first.len() implies fts_query::class_of(#[trigger] first[m])
        == fts_query::class_of(first[0]) by {
        assert(first[m] == s[m]);
    }
    if n < s.len() {
        assert(s.skip(n)[0] == s[n]);
        assert(first[0] == s[0]);
    }
}

/// The runs of a text are non-empty, each of one class, neighbours differ in
/// class, and joined they are the text again.
pub proof fn runs_tile_the_text(s: Seq<char>)
    ensures
        fts_query::joined(fts_query::runs(s)) == s,
        forall|k: int| 0 <= k < fts_query::runs(s).len() ==> uniform(#[trigger] fts_query::runs(s)[k]),
        forall|k: int|
            0 < k < fts_query::runs(s).len() ==> differ(
                fts_query::runs(s)[k - 1],
                #[trigger] fts_query::runs(s)[k],
            ),
    decreases s.len(),
{
    let rs = fts_query::runs(s);
    if s.len() > 0 {
        lemma_first_run(s);
        let n = fts_query::run_len(s) as int;
        let t = s.skip(n);
        let first = s.take(n);
        let rest = fts_query::runs(t);
        runs_tile_the_text(t);
        assert(fts_query::joined(rs) == s) by {
            lemma_joined_append(seq![first], rest);
            lemma_joined_one(first);
            assert(first + t == s);
        }
        assert forall|k: int| 0 <= k < rs.len() implies uniform(#[trigger] rs[k]) by {
            if k > 0 {
                assert(rs[k] == rest[k - 1]);
            }
        }
        assert forall|k: int| 0 < k < rs.len() implies differ(rs[k - 1], #[trigger] rs[k]) by {
            assert(rs[k] == rest[k - 1]);
            if k > 1 {
                assert(rs[k - 1] == rest[k - 2]);
            } else {
                lemma_first_run(t);
                assert(rest[0] == t.take(fts_query::run_len(t) as int));
                assert(rest[0][0] == t[0]);
                assert(rs[0] == first);
            }
        }
    } else {
        assert(rs == Seq::<Seq<char>>::empty());
        assert(fts_query::joined(rs) == s);
    }
}

// ---------------------------------------------------------------------------
// Phrases
// ---------------------------------------------------------------------------

proof fn lemma_joined_part(rs: Seq<Seq<char>>, a: int, b: int)
    requires
        0 <= a <= b <= rs.len(),
    ensures
        substring(fts_query::joined(rs.subrange(a, b)), fts_query::joined(rs)),
{
    let x = rs.subrange(0, a);
    let y = rs.subrange(a, b);
    let z = rs.subrange(b, rs.len() as int);
    assert(rs == x + y + z);
    lemma_joined_append(x + y, z);
    lemma_joined_append(x, y);
    let jx = fts_query::joined(x);
    let jy = fts_query::joined(y);
    let j = fts_query::joined(rs);
    assert(j.subrange(jx.len() as int, (jx.len() + jy.len()) as int) == jy);
}

proof fn lemma_unit_is_long_enough(rs: Seq<Seq<char>>, i: int, j: int, acc: nat)
    requires
        0 <= i <= j <= rs.len(),
        acc == fts_query::joined(rs.subrange(i, j)).len(),
    ensures
        fts_query::unit_end(rs, j, acc) matches Some(e) ==> j <= e <= rs.len()
            && fts_query::joined(rs.subrange(i, e)).len() >= MIN_PHRASE_CHARS,
    decreases rs.len() - j,
{
    if acc < MIN_PHRASE_CHARS && j < rs.len() {
        assert(rs.subrange(i, j + 1).drop_last() == rs.subrange(i, j));
        assert(rs.subrange(i, j + 1).last() == rs[j]);
        lemma_unit_is_long_enough(rs, i, j + 1, acc + rs[j].len());
    }
}

/// What a phrase of a group must be: a piece of the group that can match.
pub open spec fn good_piece(p: Seq<char>, group: Seq<char>) -> bool {
    p.len() >= MIN_PHRASE_CHARS && substring(p, group)
}

proof fn lemma_unit_phrases_good(rs: Seq<Seq<char>>, i: int, j: int)
    requires
        0 <= i < j <= rs.len(),
        fts_query::joined(rs.subrange(i, j)).len() >= MIN_PHRASE_CHARS,
    ensures
        forall|k: int|
            0 <= k < fts_query::unit_phrases(rs, i, j).len() ==> good_piece(
                #[trigger] fts_query::unit_phrases(rs, i, j)[k],
                fts_query::joined(rs),
            ),
{
    lemma_joined_part(rs, i, j);
    lemma_joined_part(rs, j - 1, j);
    assert(rs.subrange(j - 1, j) == seq![rs[j - 1]]);
    lemma_joined_one(rs[j - 1]);
}

proof fn lemma_phrases_from_good(rs: Seq<Seq<char>>, i: int)
    requires
        0 <= i,
    ensures
        forall|k: int|
            0 <= k < fts_query::phrases_from(rs, i).len() ==> good_piece(
                #[trigger] fts_query::phrases_from(rs, i)[k],
                fts_query::joined(rs),
            ),
    decreases rs.len() - i,
{
    if i < rs.len() {
        assert(rs.subrange(i, i) == Seq::<Seq<char>>::empty());
        lemma_unit_is_long_enough(rs, i, i, 0);
        if let Some(j) = fts_query::unit_end(rs, i, 0) {
            if i < j {
                let n = rs.len() as int;
                lemma_unit_phrases_good(rs, i, j);
                let own = fts_query::unit_phrases(rs, i, j);
                let ps = fts_query::phrases_from(rs, i);
                if j < n && fts_query::unit_end(rs, j, 0) is None {
                    lemma_joined_part(rs, i, n);
                    let head = rs.subrange(i, j);
                    let tail = rs.subrange(j, n);
                    assert(rs.subrange(i, n) == head + tail);
                    lemma_joined_append(head, tail);
                    let extended = seq![fts_query::joined(rs.subrange(i, n))];
                    assert(ps == extended + own);
                    assert forall|k: int| 0 <= k < ps.len() implies good_piece(
                        #[trigger] ps[k],
                        fts_query::joined(rs),
                    ) by {
                        if k > 0 {
                            assert(ps[k] == own[k - 1]);
                        }
                    }
                } else {
                    lemma_phrases_from_good(rs, j);
                    let rest = fts_query::phrases_from(rs, j);
                    assert(ps == own + rest);
                    assert forall|k: int| 0 <= k < ps.len() implies good_piece(
                        #[trigger] ps[k],
                        fts_query::joined(rs),
                    ) by {
                        if k < own.len() {
                            assert(ps[k] == own[k]);
                        } else {
                            assert(ps[k] == rest[k - own.len()]);
                        }
                    }
                }
            }
        }
    }
}

/// Every phrase of a group is a contiguous piece of the group, long enough to
/// match.
pub proof fn group_phrases_are_pieces(group: Seq<char>)
    ensures
        forall|k: int|
            0 <= k < fts_query::group_phrases(fts_query::runs(group)).len() ==> good_piece(
                #[trigger] fts_query::group_phrases(fts_query::runs(group))[k],
                group,
            ),
{
    lemma_phrases_from_good(fts_query::runs(group), 0);
    runs_tile_the_text(group);
}

proof fn lemma_substring_unseparated(p: Seq<char>, s: Seq<char>)
    requires
        substring(p, s),
        unseparated(s),
    ensures
        unseparated(p),
{
    let (a, b) = choose|a: int, b: int| 0 <= a <= b <= s.len() && #[trigger] s.subrange(a, b) == p;
    assert forall|k: int| 0 <= k < p.len() implies !fts_query::is_separator(#[trigger] p[k]) by {
        assert(p[k] == s[a + k]);
    }
}

/// What a phrase of plain text must be.
pub open spec fn plain_piece(p: Seq<char>, text: Seq<char>) -> bool {
    p.len() >= MIN_PHRASE_CHARS && substring(p, text) && unseparated(p)
}

proof fn lemma_groups_phrases_good(gs: Seq<Seq<char>>, s: Seq<char>)
    requires
        forall|k: int|
            0 <= k < gs.len() ==> unseparated(#[trigger] gs[k]) && substring(gs[k], s),
    ensures
        forall|k: int|
            0 <= k < fts_query::groups_phrases(gs).len() ==> plain_piece(
                #[trigger] fts_query::groups_phrases(gs)[k],
                s,
            ),
    decreases gs.len(),
{
    if gs.len() > 0 {
        let g = gs.last();
        lemma_groups_phrases_good(gs.drop_last(), s);
        group_phrases_are_pieces(g);
        let front = fts_query::groups_phrases(gs.drop_last());
        let own = fts_query::group_phrases(fts_query::runs(g));
        let ps = fts_query::groups_phrases(gs);
        assert(ps == front + own);
        assert forall|k: int| 0 <= k < ps.len() implies plain_piece(#[trigger] ps[k], s) by {
            if k < front.len() {
                assert(ps[k] == front[k]);
            } else {
                assert(ps[k] == own[k - front.len()]);
                lemma_substring_transitive(ps[k], g, s);
                lemma_substring_unseparated(ps[k], g);
            }
        }
    }
}

proof fn lemma_segments_from_pieces(s: Seq<char>, start: int, i: int)
    requires
        0 <= start <= i <= s.len(),
    ensures
        forall|k: int|
            0 <= k < fts_query::segments_from(s, start, i).len() ==> (
            #[trigger] fts_query::segments_from(s, start, i)[k] matches SegmentText::Plain(t)
                ==> substring(t, s)),
    decreases s.len() - i,
{
    assert(s.skip(start) == s.subrange(start, s.len() as int));
    if i < s.len() {
        if s[i] != '"' {
            lemma_segments_from_pieces(s, start, i + 1);
        } else {
            lemma_scan_reads_doubled(s, i + 1);
            if let Some((content, end)) = fts_query::scan_quoted(s, i + 1) {
                lemma_segments_from_pieces(s, end, end);
                assert(substring(s.subrange(start, i), s));
            }
        }
    }
}

/// What a phrase of a query must be: the content of a quoted region, or a
/// contiguous piece of the query without a separator; in either case long
/// enough to match.
pub open spec fn query_piece(p: Seq<char>, raw: Seq<char>) -> bool {
    ||| p.len() >= MIN_PHRASE_CHARS && !p.contains('\0') && fts_query::segments(raw).contains(
        SegmentText::Quoted(p),
    )
    ||| plain_piece(p, raw)
}

proof fn lemma_segments_phrases_good(segs: Seq<SegmentText>, raw: Seq<char>)
    requires
        forall|k: int|
            0 <= k < segs.len() ==> fts_query::segments(raw).contains(#[trigger] segs[k]) && (
            segs[k] matches SegmentText::Plain(t) ==> substring(t, raw)),
    ensures
        forall|k: int|
            0 <= k < fts_query::segments_phrases(segs).len() ==> query_piece(
                #[trigger] fts_query::segments_phrases(segs)[k],
                raw,
            ),
    decreases segs.len(),
{
    if segs.len() > 0 {
        let seg = segs.last();
        lemma_segments_phrases_good(segs.drop_last(), raw);
        let front = fts_query::segments_phrases(segs.drop_last());
        let own = fts_query::segment_phrases(seg);
        let ps = fts_query::segments_phrases(segs);
        assert(ps == front + own);
        if let SegmentText::Plain(t) = seg {
            groups_are_unseparated_pieces(t);
            let gs = fts_query::groups(t);
            assert forall|k: int| 0 <= k < gs.len() implies unseparated(#[trigger] gs[k])
                && substring(gs[k], raw) by {
                lemma_substring_transitive(gs[k], t, raw);
            }
            lemma_groups_phrases_good(gs, raw);
        }
        assert forall|k: int| 0 <= k < ps.len() implies query_piece(#[trigger] ps[k], raw) by {
            if k < front.len() {
                assert(ps[k] == front[k]);
            } else {
                assert(ps[k] == own[k - front.len()]);
            }
        }
    }
}

proof fn lemma_distinct(s: Seq<Seq<char>>)
    ensures
        fts_query::distinct(s).no_duplicates(),
        fts_query::distinct(s).len() <= s.len(),
        forall|k: int|
            0 <= k < fts_query::distinct(s).len() ==> s.contains(
                #[trigger] fts_query::distinct(s)[k],
            ),
        forall|k: int| 0 <= k < s.len() ==> fts_query::distinct(s).contains(#[trigger] s[k]),
    decreases s.len(),
{
    if s.len() > 0 {
        let t = s.drop_last();
        let d = fts_query::distinct(t);
        let e = fts_query::distinct(s);
        lemma_distinct(t);
        assert forall|k: int| 0 <= k < e.len() implies s.contains(#[trigger] e[k]) by {
            if k < d.len() {
                assert(e[k] == d[k]);
                let m = choose|m: int| 0 <= m < t.len() && t[m] == d[k];
                assert(s[m] == e[k]);
            } else {
                assert(s[s.len() - 1] == e[k]);
            }
        }
        assert forall|k: int| 0 <= k < s.len() implies e.contains(#[trigger] s[k]) by {
            if k < t.len() {
                assert(t[k] == s[k]);
                let m = choose|m: int| 0 <= m < d.len() && d[m] == t[k];
                assert(e[m] == s[k]);
            } else if !d.contains(s.last()) {
                assert(e[d.len() as int] == s[k]);
            }
        }
    }
}

/// The phrases of any query: at most as many as the cap allows, none twice,
/// and each the content of a quoted region or a contiguous piece of the query
/// without a separator, long enough to match.
pub proof fn phrases_are_pieces_of_the_query(raw: Seq<char>)
    ensures
        fts_query::phrases_of(raw).len() <= MAX_PHRASES,
        fts_query::phrases_of(raw).no_duplicates(),
        forall|k: int|
            0 <= k < fts_query::phrases_of(raw).len() ==> query_piece(
                #[trigger] fts_query::phrases_of(raw)[k],
                raw,
            ),
{
    let segs = fts_query::segments(raw);
    lemma_segments_from_pieces(raw, 0, 0);
    lemma_segments_phrases_good(segs, raw);
    let all = fts_query::segments_phrases(segs);
    lemma_distinct(all);
    let d = fts_query::distinct(all);
    let ps = fts_query::phrases_of(raw);
    assert forall|k: int| 0 <= k < ps.len() implies query_piece(#[trigger] ps[k], raw) by {
        assert(ps[k] == d[k]);
        let m = choose|m: int| 0 <= m < all.len() && all[m] == d[k];
        assert(query_piece(all[m], raw));
    }
}

proof fn lemma_unquoted_segments(s: Seq<char>, i: int)
    requires
        0 <= i <= s.len(),
        !s.contains('"'),
    ensures
        fts_query::segments_from(s, 0, i) == fts_query::plain(s),
    decreases s.len() - i,
{
    assert(s.skip(0) == s);
    if i < s.len() {
        assert(s.contains(s[i]));
        lemma_unquoted_segments(s, i + 1);
    }
}

/// Of a query without quotes every phrase is a contiguous piece.
pub proof fn unquoted_phrases_are_substrings(raw: Seq<char>)
    requires
        !raw.contains('"'),
    ensures
        forall|k: int|
            0 <= k < fts_query::phrases_of(raw).len() ==> substring(
                #[trigger] fts_query::phrases_of(raw)[k],
                raw,
            ),
{
    phrases_are_pieces_of_the_query(raw);
    lemma_unquoted_segments(raw, 0);
}

/// Dropping repetitions keeps every phrase once, in order of first occurrence,
/// and the cap then only shortens the list.
pub proof fn dedup_keeps_each_phrase_once(s: Seq<Seq<char>>)
    ensures
        fts_query::distinct(s).no_duplicates(),
        fts_query::distinct(s).to_set() == s.to_set(),
        fts_query::capped(fts_query::distinct(s)).is_prefix_of(fts_query::distinct(s)),
{
    lemma_distinct(s);
    let d = fts_query::distinct(s);
    assert forall|p: Seq<char>| d.to_set().contains(p) == s.to_set().contains(p) by {
        if d.contains(p) {
            let k = choose|k: int| 0 <= k < d.len() && d[k] == p;
            assert(s.contains(d[k]));
        }
        if s.contains(p) {
            let k = choose|k: int| 0 <= k < s.len() && s[k] == p;
            assert(d.contains(s[k]));
        }
    }
    assert(d.to_set() == s.to_set());
}

} // verus!
