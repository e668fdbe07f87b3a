//! Fingerprints of what the index holds, and what is said when they change.

use crate::sort;
use crate::text;
use crate::text::{push_decimal, text_precedes, to_text};
use vstd::bytes;
use vstd::bytes::u64_to_le_bytes;
use vstd::prelude::*;
use vstd::string::StringExecFns;
use vstd::utf8;

verus! {

/// The SHA-256 digest of some bytes, in lower-case hexadecimal.
pub uninterp spec fn sha256_hex(bytes: Seq<u8>) -> Seq<char>;

/// `sha2::Sha256::digest`, written in hexadecimal: 64 characters that depend on
/// the bytes alone.
#[verifier::external_body]
pub(crate) fn sha256(bytes: &[u8]) -> (r: String)
    ensures
        r@ == sha256_hex(bytes@),
        r@.len() == 64,
{
    format!("{:x}", <sha2::Sha256 as sha2::Digest>::digest(bytes))
}

// ---------------------------------------------------------------------------
// The digest over paths and content hashes
// ---------------------------------------------------------------------------

/// The order of entries: by path, and by hash where the paths are the same.
pub open spec fn entry_precedes(
    a: (Seq<char>, Seq<char>),
    b: (Seq<char>, Seq<char>),
) -> bool {
    text::precedes(a.0, b.0) || (a.0 == b.0 && text::precedes(a.1, b.1))
}

/// The entries as characters.
pub open spec fn entry_texts(v: Seq<(String, String)>) -> Seq<(Seq<char>, Seq<char>)> {
    Seq::new(v.len(), |i: int| (v[i].0@, v[i].1@))
}

/// The entries in order.
pub open spec fn sorted_entries(es: Seq<(Seq<char>, Seq<char>)>) -> Seq<(Seq<char>, Seq<char>)> {
    sort::arranged(
        es,
        |a: (Seq<char>, Seq<char>), b: (Seq<char>, Seq<char>)| entry_precedes(a, b),
    )
}

/// One entry as it is hashed: a NUL ends the path and a line feed the hash.
pub open spec fn entry_line(e: (Seq<char>, Seq<char>)) -> Seq<char> {
    (e.0.push('\0') + e.1).push('\n')
}

/// Entries as they are hashed, one after the other.
pub open spec fn listing(es: Seq<(Seq<char>, Seq<char>)>) -> Seq<char>
    decreases es.len(),
{
    if es.len() == 0 {
        Seq::empty()
    } else {
        entry_line(es[0]) + listing(es.skip(1))
    }
}

fn entry_comes_before(a: &(String, String), b: &(String, String)) -> (r: bool)
    ensures
        r == entry_precedes((a.0@, a.1@), (b.0@, b.1@)),
{
    if text::same_text(a.0.as_str(), b.0.as_str()) {
        proof {
            text::precedes_is_a_strict_total_order(a.0@, a.0@, a.0@);
        }
        text_precedes(a.1.as_str(), b.1.as_str())
    } else {
        text_precedes(a.0.as_str(), b.0.as_str())
    }
}

fn insert_entry(sorted: &mut Vec<(String, String)>, x: (String, String))
    ensures
        entry_texts(final(sorted)@) == sort::inserted(
            entry_texts(old(sorted)@),
            (x.0@, x.1@),
            |a: (Seq<char>, Seq<char>), b: (Seq<char>, Seq<char>)| entry_precedes(a, b),
        ),
{
    let ghost less = |a: (Seq<char>, Seq<char>), b: (Seq<char>, Seq<char>)| entry_precedes(a, b);
    let ghost before = entry_texts(sorted@);
    let ghost e = (x.0@, x.1@);
    let ghost old_vec = sorted@;
    let mut at: usize = sorted.len();
    proof {
        assert(before.take(at as int) == before);
        assert(before.skip(at as int) == Seq::<(Seq<char>, Seq<char>)>::empty());
        let whole = sort::inserted(before, e, less);
        assert(whole + Seq::<(Seq<char>, Seq<char>)>::empty() == whole);
    }
    while at > 0 && entry_comes_before(&x, &sorted[at - 1])
        invariant
            less == (|a: (Seq<char>, Seq<char>), b: (Seq<char>, Seq<char>)| entry_precedes(a, b)),
            sorted@ == old_vec,
            before == entry_texts(old_vec),
            e == (x.0@, x.1@),
            at <= before.len(),
            sort::inserted(before, e, less) == sort::inserted(before.take(at as int), e, less)
                + before.skip(at as int),
        ensures
            at <= before.len(),
            sort::inserted(before, e, less) == before.take(at as int).push(e) + before.skip(
                at as int,
            ),
        decreases at,
    {
        proof {
            let t = before.take(at as int);
            assert(t.last() == before[at - 1]);
            assert(t.drop_last() == before.take(at - 1));
            let inner = sort::inserted(before.take(at - 1), e, less);
            assert(inner.push(before[at - 1]) + before.skip(at as int) == inner + before.skip(
                at - 1,
            ));
        }
        at -= 1;
    }
    sorted.insert(at, x);
    proof {
        assert(entry_texts(sorted@) == before.take(at as int).push(e) + before.skip(at as int));
    }
}

/// The digest of a listing of documents: that of its lines in order of path.
pub open spec fn digest_of(path_hashes: Seq<(String, String)>) -> Seq<char> {
    sha256_hex(utf8::encode_utf8(listing(sorted_entries(entry_texts(path_hashes)))))
}

/// The digest of the documents that are indexed: over their paths and content
/// hashes, in order of path, so that it does not matter in which order they
/// come.
pub fn corpus_digest(path_hashes: &Vec<(String, String)>) -> (r: String)
    ensures
        r@ == digest_of(path_hashes@),
{
    let ghost all = entry_texts(path_hashes@);
    let ghost less = |a: (Seq<char>, Seq<char>), b: (Seq<char>, Seq<char>)| entry_precedes(a, b);
    let mut sorted: Vec<(String, String)> = Vec::new();
    let mut i: usize = 0;
    proof {
        assert(entry_texts(sorted@) == sort::arranged(all.take(0), less));
    }
    while i < path_hashes.len()
        invariant
            less == (|a: (Seq<char>, Seq<char>), b: (Seq<char>, Seq<char>)| entry_precedes(a, b)),
            all == entry_texts(path_hashes@),
            i <= path_hashes@.len(),
            entry_texts(sorted@) == sort::arranged(all.take(i as int), less),
        decreases path_hashes@.len() - i,
    {
        proof {
            assert(all.take(i + 1).drop_last() == all.take(i as int));
            assert(all.take(i + 1).last() == all[i as int]);
        }
        insert_entry(&mut sorted, (path_hashes[i].0.clone(), path_hashes[i].1.clone()));
        i += 1;
    }
    proof {
        assert(all.take(all.len() as int) == all);
    }
    let ghost es = entry_texts(sorted@);
    let mut buf = String::new();
    let mut k: usize = 0;
    proof {
        assert(es.skip(0) == es);
        assert(buf@ + listing(es) == listing(es));
    }
    while k < sorted.len()
        invariant
            es == entry_texts(sorted@),
            k <= sorted@.len(),
            buf@ + listing(es.skip(k as int)) == listing(es),
        decreases sorted@.len() - k,
    {
        let ghost before = buf@;
        buf.append(sorted[k].0.as_str());
        buf.push('\0');
        buf.append(sorted[k].1.as_str());
        buf.push('\n');
        proof {
            assert(es.skip(k as int)[0] == es[k as int]);
            assert(es.skip(k as int).skip(1) == es.skip(k + 1));
            assert(buf@ == before + entry_line(es[k as int]));
            let rest = listing(es.skip(k + 1));
            assert(before + (entry_line(es[k as int]) + rest) == (before + entry_line(
                es[k as int],
            )) + rest);
        }
        k += 1;
    }
    proof {
        assert(buf@ + Seq::<char>::empty() == buf@);
    }
    sha256(buf.as_str().as_bytes())
}

proof fn lemma_entries_ordered(es: Seq<(Seq<char>, Seq<char>)>)
    ensures
        sort::orders(
            es,
            |a: (Seq<char>, Seq<char>), b: (Seq<char>, Seq<char>)| entry_precedes(a, b),
        ),
{
    let less = |a: (Seq<char>, Seq<char>), b: (Seq<char>, Seq<char>)| entry_precedes(a, b);
    assert forall|a: (Seq<char>, Seq<char>), b: (Seq<char>, Seq<char>)| #[trigger]
        es.contains(a) && #[trigger] es.contains(b) implies !(less(a, b) && less(b, a)) && (less(
        a,
        b,
    ) || less(b, a) || a == b) by {
        text::precedes_is_a_strict_total_order(a.0, b.0, b.0);
        text::precedes_is_a_strict_total_order(a.1, b.1, b.1);
    }
    assert forall|
        a: (Seq<char>, Seq<char>),
        b: (Seq<char>, Seq<char>),
        c: (Seq<char>, Seq<char>),
    |
        #![trigger es.contains(a), es.contains(b), es.contains(c)]
        es.contains(a) && es.contains(b) && es.contains(c) && less(a, b) && less(
            b,
            c,
        ) implies less(a, c) by {
        text::precedes_is_a_strict_total_order(a.0, b.0, c.0);
        text::precedes_is_a_strict_total_order(a.1, b.1, c.1);
    }
}

/// The digest does not depend on the order in which the documents are listed.
pub proof fn digest_forgets_the_order(
    a: Seq<(Seq<char>, Seq<char>)>,
    b: Seq<(Seq<char>, Seq<char>)>,
)
    requires
        a.to_multiset() == b.to_multiset(),
    ensures
        sha256_hex(utf8::encode_utf8(listing(sorted_entries(a)))) == sha256_hex(
            utf8::encode_utf8(listing(sorted_entries(b))),
        ),
{
    lemma_entries_ordered(a);
    sort::arranging_forgets_the_order(
        a,
        b,
        |x: (Seq<char>, Seq<char>), y: (Seq<char>, Seq<char>)| entry_precedes(x, y),
    );
}

/// An entry whose path holds no NUL and whose hash holds no line feed.
pub open spec fn unambiguous(e: (Seq<char>, Seq<char>)) -> bool {
    !e.0.contains('\0') && !e.1.contains('\n')
}

proof fn lemma_line_reads_back(
    e: (Seq<char>, Seq<char>),
    f: (Seq<char>, Seq<char>),
    x: Seq<char>,
    y: Seq<char>,
)
    requires
        unambiguous(e),
        unambiguous(f),
        entry_line(e) + x == entry_line(f) + y,
    ensures
        e == f,
        x == y,
{
    let s = entry_line(e) + x;
    let t = entry_line(f) + y;
    let m = e.0.len() as int;
    let n = f.0.len() as int;
    assert(s[m] == '\0');
    assert(t[n] == '\0');
    if m < n {
        assert(t[m] == f.0[m]);
        assert(f.0.contains('\0'));
    }
    if n < m {
        assert(s[n] == e.0[n]);
        assert(e.0.contains('\0'));
    }
    assert(e.0 == f.0) by {
        assert forall|k: int| 0 <= k < m implies e.0[k] == f.0[k] by {
            assert(s[k] == e.0[k]);
            assert(t[k] == f.0[k]);
        }
        assert(e.0 =~= f.0);
    }
    let p = e.1.len() as int;
    let q = f.1.len() as int;
    assert(s[m + 1 + p] == '\n');
    assert(t[m + 1 + q] == '\n');
    if p < q {
        assert(t[m + 1 + p] == f.1[p]);
        assert(f.1.contains('\n'));
    }
    if q < p {
        assert(s[m + 1 + q] == e.1[q]);
        assert(e.1.contains('\n'));
    }
    assert(e.1 == f.1) by {
        assert forall|k: int| 0 <= k < p implies e.1[k] == f.1[k] by {
            assert(s[m + 1 + k] == e.1[k]);
            assert(t[m + 1 + k] == f.1[k]);
        }
        assert(e.1 =~= f.1);
    }
    let len = entry_line(e).len() as int;
    assert(x == s.skip(len));
    assert(y == t.skip(len));
}

/// What is hashed tells the documents apart: two lists of entries that differ
/// are hashed from different bytes, as long as no path holds a NUL and no hash
/// a line feed.
pub proof fn listing_tells_entries_apart(
    a: Seq<(Seq<char>, Seq<char>)>,
    b: Seq<(Seq<char>, Seq<char>)>,
)
    requires
        forall|i: int| 0 <= i < a.len() ==> unambiguous(#[trigger] a[i]),
        forall|i: int| 0 <= i < b.len() ==> unambiguous(#[trigger] b[i]),
        utf8::encode_utf8(listing(a)) == utf8::encode_utf8(listing(b)),
    ensures
        a == b,
{
    utf8::encode_utf8_decode_utf8(listing(a));
    utf8::encode_utf8_decode_utf8(listing(b));
    lemma_listing_injective(a, b);
}

proof fn lemma_listing_injective(a: Seq<(Seq<char>, Seq<char>)>, b: Seq<(Seq<char>, Seq<char>)>)
    requires
        forall|i: int| 0 <= i < a.len() ==> unambiguous(#[trigger] a[i]),
        forall|i: int| 0 <= i < b.len() ==> unambiguous(#[trigger] b[i]),
        listing(a) == listing(b),
    ensures
        a == b,
    decreases a.len(),
{
    if a.len() == 0 || b.len() == 0 {
        if a.len() > 0 {
            assert(listing(a).len() > 0);
        }
        if b.len() > 0 {
            assert(listing(b).len() > 0);
        }
        assert(a =~= b);
    } else {
        lemma_line_reads_back(a[0], b[0], listing(a.skip(1)), listing(b.skip(1)));
        assert forall|i: int| 0 <= i < a.skip(1).len() implies unambiguous(
            #[trigger] a.skip(1)[i],
        ) by {
            assert(a.skip(1)[i] == a[i + 1]);
        }
        assert forall|i: int| 0 <= i < b.skip(1).len() implies unambiguous(
            #[trigger] b.skip(1)[i],
        ) by {
            assert(b.skip(1)[i] == b[i + 1]);
        }
        lemma_listing_injective(a.skip(1), b.skip(1));
        assert(a == seq![a[0]] + a.skip(1));
        assert(b == seq![b[0]] + b.skip(1));
    }
}

// ---------------------------------------------------------------------------
// The digest over chunks
// ---------------------------------------------------------------------------

/// One chunk as it is hashed.
#[derive(Debug, Clone)]
pub struct SnapshotRow {
    pub path: String,
    pub chunk_index: i64,
    pub heading: Option<String>,
    pub content: String,
    pub context_text: Option<String>,
}

/// The characters of an optional string, none where it is missing.
pub open spec fn or_empty(o: Option<String>) -> Seq<char> {
    match o {
        Some(s) => s@,
        None => Seq::empty(),
    }
}

/// The five texts of a chunk that are hashed.
pub open spec fn row_fields(row: SnapshotRow) -> Seq<Seq<char>> {
    seq![
        row.path@,
        text::signed_decimal(row.chunk_index as int),
        or_empty(row.heading),
        row.content@,
        or_empty(row.context_text),
    ]
}

/// A text as it is hashed: its length in eight bytes, the lowest first, and
/// then its bytes.
pub open spec fn field_bytes(f: Seq<char>) -> Seq<u8> {
    bytes::spec_u64_to_le_bytes(utf8::encode_utf8(f).len() as u64) + utf8::encode_utf8(f)
}

/// Texts as they are hashed, one after the other.
pub open spec fn fields_bytes(fs: Seq<Seq<char>>) -> Seq<u8>
    decreases fs.len(),
{
    if fs.len() == 0 {
        Seq::empty()
    } else {
        fields_bytes(fs.drop_last()) + field_bytes(fs.last())
    }
}

/// The texts of all chunks.
pub open spec fn snapshot_fields(rows: Seq<SnapshotRow>) -> Seq<Seq<char>>
    decreases rows.len(),
{
    if rows.len() == 0 {
        Seq::empty()
    } else {
        snapshot_fields(rows.drop_last()) + row_fields(rows.last())
    }
}

fn push_field(out: &mut Vec<u8>, f: &str)
    ensures
        final(out)@ == old(out)@ + field_bytes(f@),
{
    let bytes = f.as_bytes();
    let mut head = u64_to_le_bytes(bytes.len() as u64);
    let ghost prefix = head@;
    let ghost before = out@;
    out.append(&mut head);
    let mut i: usize = 0;
    proof {
        assert(out@ == before + prefix + bytes@.take(0));
    }
    while i < bytes.len()
        invariant
            i <= bytes@.len(),
            out@ == before + prefix + bytes@.take(i as int),
        decreases bytes@.len() - i,
    {
        out.push(bytes[i]);
        i += 1;
        proof {
            assert(bytes@.take(i as int) == bytes@.take(i - 1).push(bytes@[i - 1]));
        }
    }
    proof {
        assert(bytes@.take(bytes@.len() as int) == bytes@);
        assert(before + prefix + bytes@ == before + (prefix + bytes@));
    }
}

proof fn lemma_fields_push(fs: Seq<Seq<char>>, f: Seq<char>)
    ensures
        fields_bytes(fs.push(f)) == fields_bytes(fs) + field_bytes(f),
{
    assert(fs.push(f).drop_last() == fs);
}

/// The digest of the chunks that are indexed, in the order in which they are
/// given.
pub fn snapshot_digest(rows: &Vec<SnapshotRow>) -> (r: String)
    ensures
        r@ == sha256_hex(fields_bytes(snapshot_fields(rows@))),
{
    let mut out: Vec<u8> = Vec::new();
    let mut i: usize = 0;
    while i < rows.len()
        invariant
            i <= rows@.len(),
            out@ == fields_bytes(snapshot_fields(rows@.take(i as int))),
        decreases rows@.len() - i,
    {
        let row = &rows[i];
        let ghost fs = snapshot_fields(rows@.take(i as int));
        let mut index = String::new();
        text::push_signed(&mut index, row.chunk_index);
        proof {
            assert(index@ == text::signed_decimal(row.chunk_index as int));
        }
        let none = String::new();
        let heading = match &row.heading {
            Some(s) => s.as_str(),
            None => none.as_str(),
        };
        let context = match &row.context_text {
            Some(s) => s.as_str(),
            None => none.as_str(),
        };
        push_field(&mut out, row.path.as_str());
        push_field(&mut out, index.as_str());
        push_field(&mut out, heading);
        push_field(&mut out, row.content.as_str());
        push_field(&mut out, context);
        proof {
            let f0 = fs.push(row.path@);
            let f1 = f0.push(index@);
            let f2 = f1.push(heading@);
            let f3 = f2.push(row.content@);
            let f4 = f3.push(context@);
            lemma_fields_push(fs, row.path@);
            lemma_fields_push(f0, index@);
            lemma_fields_push(f1, heading@);
            lemma_fields_push(f2, row.content@);
            lemma_fields_push(f3, context@);
            assert(f4 == fs + row_fields(*row));
            assert(rows@.take(i + 1).drop_last() == rows@.take(i as int));
            assert(rows@.take(i + 1).last() == *row);
        }
        i += 1;
    }
    proof {
        assert(rows@.take(rows@.len() as int) == rows@);
    }
    sha256(out.as_slice())
}

/// A text whose length fits into eight bytes.
pub open spec fn countable(f: Seq<char>) -> bool {
    utf8::encode_utf8(f).len() <= u64::MAX
}

/// Texts as they are hashed, read from the front.
spec fn front_bytes(fs: Seq<Seq<char>>) -> Seq<u8>
    decreases fs.len(),
{
    if fs.len() == 0 {
        Seq::empty()
    } else {
        field_bytes(fs[0]) + front_bytes(fs.skip(1))
    }
}

proof fn lemma_front_push(fs: Seq<Seq<char>>, f: Seq<char>)
    ensures
        front_bytes(fs.push(f)) == front_bytes(fs) + field_bytes(f),
    decreases fs.len(),
{
    let t = fs.push(f);
    if fs.len() == 0 {
        assert(t.skip(1) == Seq::<Seq<char>>::empty());
        assert(front_bytes(t.skip(1)) == Seq::<u8>::empty());
        assert(t[0] == f);
        assert(front_bytes(t) =~= front_bytes(fs) + field_bytes(f));
    } else {
        assert(t.skip(1) == fs.skip(1).push(f));
        lemma_front_push(fs.skip(1), f);
        assert(t[0] == fs[0]);
        assert(front_bytes(t) =~= front_bytes(fs) + field_bytes(f));
    }
}

proof fn lemma_front(fs: Seq<Seq<char>>)
    ensures
        front_bytes(fs) == fields_bytes(fs),
    decreases fs.len(),
{
    if fs.len() > 0 {
        lemma_front(fs.drop_last());
        lemma_front_push(fs.drop_last(), fs.last());
        assert(fs == fs.drop_last().push(fs.last()));
    }
}

proof fn lemma_field_reads_back(f: Seq<char>, g: Seq<char>, x: Seq<u8>, y: Seq<u8>)
    requires
        countable(f),
        countable(g),
        field_bytes(f) + x == field_bytes(g) + y,
    ensures
        f == g,
        x == y,
{
    bytes::lemma_auto_spec_u64_to_from_le_bytes();
    let s = field_bytes(f) + x;
    let t = field_bytes(g) + y;
    let a = bytes::spec_u64_to_le_bytes(utf8::encode_utf8(f).len() as u64);
    let b = bytes::spec_u64_to_le_bytes(utf8::encode_utf8(g).len() as u64);
    assert(a.len() == 8);
    assert(b.len() == 8);
    assert(s.take(8) == a);
    assert(t.take(8) == b);
    assert(bytes::spec_u64_from_le_bytes(a) == bytes::spec_u64_from_le_bytes(b));
    let n = utf8::encode_utf8(f).len() as int;
    assert(utf8::encode_utf8(g).len() == n);
    assert(s.subrange(8, 8 + n) == utf8::encode_utf8(f));
    assert(t.subrange(8, 8 + n) == utf8::encode_utf8(g));
    utf8::encode_utf8_decode_utf8(f);
    utf8::encode_utf8_decode_utf8(g);
    assert(s.skip(8 + n) == x);
    assert(t.skip(8 + n) == y);
}

proof fn lemma_fields_injective(a: Seq<Seq<char>>, b: Seq<Seq<char>>)
    requires
        forall|i: int| 0 <= i < a.len() ==> countable(#[trigger] a[i]),
        forall|i: int| 0 <= i < b.len() ==> countable(#[trigger] b[i]),
        front_bytes(a) == front_bytes(b),
    ensures
        a == b,
    decreases a.len(),
{
    bytes::lemma_auto_spec_u64_to_from_le_bytes();
    if a.len() == 0 || b.len() == 0 {
        if a.len() > 0 {
            assert(field_bytes(a[0]).len() >= 8);
            assert(front_bytes(a).len() > 0);
        }
        if b.len() > 0 {
            assert(field_bytes(b[0]).len() >= 8);
            assert(front_bytes(b).len() > 0);
        }
        assert(a =~= b);
    } else {
        lemma_field_reads_back(a[0], b[0], front_bytes(a.skip(1)), front_bytes(b.skip(1)));
        assert forall|i: int| 0 <= i < a.skip(1).len() implies countable(#[trigger] a.skip(1)[i]) by {
            assert(a.skip(1)[i] == a[i + 1]);
        }
        assert forall|i: int| 0 <= i < b.skip(1).len() implies countable(#[trigger] b.skip(1)[i]) by {
            assert(b.skip(1)[i] == b[i + 1]);
        }
        lemma_fields_injective(a.skip(1), b.skip(1));
        assert(a == seq![a[0]] + a.skip(1));
        assert(b == seq![b[0]] + b.skip(1));
    }
}

/// What is hashed of the chunks tells them apart, whatever characters they
/// hold: different texts are hashed from different bytes.
pub proof fn snapshot_tells_chunks_apart(a: Seq<Seq<char>>, b: Seq<Seq<char>>)
    requires
        forall|i: int| 0 <= i < a.len() ==> countable(#[trigger] a[i]),
        forall|i: int| 0 <= i < b.len() ==> countable(#[trigger] b[i]),
        fields_bytes(a) == fields_bytes(b),
    ensures
        a == b,
{
    lemma_front(a);
    lemma_front(b);
    lemma_fields_injective(a, b);
}

proof fn lemma_snapshot_field(rows: Seq<SnapshotRow>, i: int, k: int)
    requires
        0 <= i < rows.len(),
        0 <= k < 5,
    ensures
        snapshot_fields(rows).len() == 5 * rows.len(),
        snapshot_fields(rows)[5 * i + k] == row_fields(rows[i])[k],
    decreases rows.len(),
{
    let front = rows.drop_last();
    if front.len() > 0 {
        lemma_snapshot_field(front, 0, 0);
    } else {
        assert(snapshot_fields(front).len() == 0);
    }
    if i < front.len() {
        lemma_snapshot_field(front, i, k);
    }
}

/// Two lists of chunks that are hashed alike hold the same texts, chunk by
/// chunk. A missing heading or context counts as an empty one.
pub proof fn equal_snapshots_have_equal_chunks(a: Seq<SnapshotRow>, b: Seq<SnapshotRow>)
    requires
        forall|i: int|
            0 <= i < snapshot_fields(a).len() ==> countable(#[trigger] snapshot_fields(a)[i]),
        forall|i: int|
            0 <= i < snapshot_fields(b).len() ==> countable(#[trigger] snapshot_fields(b)[i]),
        fields_bytes(snapshot_fields(a)) == fields_bytes(snapshot_fields(b)),
    ensures
        a.len() == b.len(),
        forall|i: int|
            0 <= i < a.len() ==> {
                let x = #[trigger] a[i];
                let y = b[i];
                &&& x.path@ == y.path@
                &&& x.chunk_index == y.chunk_index
                &&& or_empty(x.heading) == or_empty(y.heading)
                &&& x.content@ == y.content@
                &&& or_empty(x.context_text) == or_empty(y.context_text)
            },
{
    snapshot_tells_chunks_apart(snapshot_fields(a), snapshot_fields(b));
    if a.len() > 0 {
        lemma_snapshot_field(a, 0, 0);
    } else {
        assert(snapshot_fields(a).len() == 0);
    }
    if b.len() > 0 {
        lemma_snapshot_field(b, 0, 0);
    } else {
        assert(snapshot_fields(b).len() == 0);
    }
    assert forall|i: int| 0 <= i < a.len() implies {
        let x = #[trigger] a[i];
        let y = b[i];
        &&& x.path@ == y.path@
        &&& x.chunk_index == y.chunk_index
        &&& or_empty(x.heading) == or_empty(y.heading)
        &&& x.content@ == y.content@
        &&& or_empty(x.context_text) == or_empty(y.context_text)
    } by {
        lemma_snapshot_field(a, i, 0);
        lemma_snapshot_field(b, i, 0);
        lemma_snapshot_field(a, i, 1);
        lemma_snapshot_field(b, i, 1);
        lemma_snapshot_field(a, i, 2);
        lemma_snapshot_field(b, i, 2);
        lemma_snapshot_field(a, i, 3);
        lemma_snapshot_field(b, i, 3);
        lemma_snapshot_field(a, i, 4);
        lemma_snapshot_field(b, i, 4);
        text::signed_decimal_tells_apart(a[i].chunk_index as int, b[i].chunk_index as int);
    }
}

/// A chunk as characters. A missing heading or context counts as an empty one.
#[verifier::ext_equal]
pub struct ChunkText {
    pub path: Seq<char>,
    pub chunk_index: i64,
    pub heading: Seq<char>,
    pub content: Seq<char>,
    pub context: Seq<char>,
}

/// A chunk as characters.
pub open spec fn chunk_text(row: SnapshotRow) -> ChunkText {
    ChunkText {
        path: row.path@,
        chunk_index: row.chunk_index,
        heading: or_empty(row.heading),
        content: row.content@,
        context: or_empty(row.context_text),
    }
}

/// The chunks of a list as characters.
pub open spec fn chunk_texts(rows: Seq<SnapshotRow>) -> Seq<ChunkText> {
    rows.map_values(|row: SnapshotRow| chunk_text(row))
}

/// The order of chunks: by path, and by index within a document.
pub open spec fn chunk_precedes(a: ChunkText, b: ChunkText) -> bool {
    text::precedes(a.path, b.path) || (a.path == b.path && a.chunk_index < b.chunk_index)
}

/// Chunks in order, no two of them at the same place.
pub open spec fn chunks_in_order(s: Seq<ChunkText>) -> bool {
    forall|i: int, j: int|
        0 <= i < j < s.len() ==> chunk_precedes(#[trigger] s[i], #[trigger] s[j])
}

proof fn lemma_chunk_order(a: ChunkText, b: ChunkText)
    ensures
        !(chunk_precedes(a, b) && chunk_precedes(b, a)),
        !chunk_precedes(a, a),
{
    text::precedes_is_a_strict_total_order(a.path, b.path, a.path);
    text::precedes_is_a_strict_total_order(a.path, a.path, a.path);
}

proof fn lemma_ordered_chunks_determined(a: Seq<ChunkText>, b: Seq<ChunkText>)
    requires
        chunks_in_order(a),
        chunks_in_order(b),
        forall|c: ChunkText| a.contains(c) <==> b.contains(c),
    ensures
        a == b,
    decreases a.len(),
{
    if a.len() == 0 {
        if b.len() > 0 {
            assert(b.contains(b[0]));
        }
        assert(a =~= b);
    } else {
        assert(a.contains(a.last()));
        assert(b.contains(a.last()));
        assert(b.len() > 0);
        assert(b.contains(b.last()));
        assert(a.contains(b.last()));
        let i = choose|i: int| 0 <= i < a.len() && a[i] == b.last();
        let j = choose|j: int| 0 <= j < b.len() && b[j] == a.last();
        lemma_chunk_order(a.last(), b.last());
        assert(a.last() == b.last()) by {
            if i < a.len() - 1 && j < b.len() - 1 {
                assert(chunk_precedes(a[i], a[a.len() - 1]));
                assert(chunk_precedes(b[j], b[b.len() - 1]));
            }
        }
        let c = a.drop_last();
        let d = b.drop_last();
        assert forall|x: ChunkText| c.contains(x) <==> d.contains(x) by {
            lemma_chunk_order(a.last(), a.last());
            if c.contains(x) {
                let n = choose|n: int| 0 <= n < c.len() && c[n] == x;
                assert(a[n] == x && chunk_precedes(a[n], a[a.len() - 1]));
                assert(a.contains(x));
                let m = choose|m: int| 0 <= m < b.len() && b[m] == x;
                assert(m < d.len());
                assert(d[m] == x);
            }
            if d.contains(x) {
                let n = choose|n: int| 0 <= n < d.len() && d[n] == x;
                assert(b[n] == x && chunk_precedes(b[n], b[b.len() - 1]));
                assert(b.contains(x));
                let m = choose|m: int| 0 <= m < a.len() && a[m] == x;
                assert(m < c.len());
                assert(c[m] == x);
            }
        }
        lemma_ordered_chunks_determined(c, d);
        assert(a =~= c.push(a.last()));
        assert(b =~= d.push(b.last()));
    }
}

proof fn lemma_fields_of_chunks(a: Seq<SnapshotRow>, b: Seq<SnapshotRow>)
    requires
        chunk_texts(a) == chunk_texts(b),
    ensures
        snapshot_fields(a) == snapshot_fields(b),
    decreases a.len(),
{
    assert(a.len() == chunk_texts(a).len());
    assert(b.len() == chunk_texts(b).len());
    if a.len() > 0 {
        assert(chunk_texts(a.drop_last()) =~= chunk_texts(a).drop_last());
        assert(chunk_texts(b.drop_last()) =~= chunk_texts(b).drop_last());
        lemma_fields_of_chunks(a.drop_last(), b.drop_last());
        assert(chunk_text(a.last()) == chunk_texts(a).last());
        assert(chunk_text(b.last()) == chunk_texts(b).last());
        assert(row_fields(a.last()) == row_fields(b.last()));
    }
}

/// The same chunks have the same digest: two readings of an index that hold the same
/// chunks, each in order of path and index with no two at the same place, are hashed
/// alike.
pub proof fn equal_chunks_have_equal_snapshots(a: Seq<SnapshotRow>, b: Seq<SnapshotRow>)
    requires
        chunks_in_order(chunk_texts(a)),
        chunks_in_order(chunk_texts(b)),
        chunk_texts(a).to_set() == chunk_texts(b).to_set(),
    ensures
        chunk_texts(a) == chunk_texts(b),
        sha256_hex(fields_bytes(snapshot_fields(a))) == sha256_hex(
            fields_bytes(snapshot_fields(b)),
        ),
{
    assert forall|c: ChunkText| chunk_texts(a).contains(c) <==> chunk_texts(b).contains(c) by {
        assert(chunk_texts(a).to_set().contains(c) <==> chunk_texts(a).contains(c));
        assert(chunk_texts(b).to_set().contains(c) <==> chunk_texts(b).contains(c));
    }
    lemma_ordered_chunks_determined(chunk_texts(a), chunk_texts(b));
    lemma_fields_of_chunks(a, b);
}

// ---------------------------------------------------------------------------
// Changes
// ---------------------------------------------------------------------------

/// What the index held when something was measured.
#[derive(Debug, Clone)]
pub struct CorpusSnapshot {
    pub documents: u32,
    pub chunks: u32,
    pub digest: String,
}

/// A snapshot as characters.
pub struct SnapshotText {
    pub documents: u32,
    pub chunks: u32,
    pub digest: Seq<char>,
}

impl View for CorpusSnapshot {
    type V = SnapshotText;

    open spec fn view(&self) -> SnapshotText {
        SnapshotText { documents: self.documents, chunks: self.chunks, digest: self.digest@ }
    }
}

impl CorpusSnapshot {
    /// Whether two snapshots are of the same contents.
    pub fn same(&self, other: &CorpusSnapshot) -> (r: bool)
        ensures
            r == (self@ == other@),
    {
        self.documents == other.documents && self.chunks == other.chunks && text::same_text(
            self.digest.as_str(),
            other.digest.as_str(),
        )
    }
}

/// What is said of the change from one snapshot to the next: nothing where one
/// is missing or they are the same.
pub open spec fn corpus_change(
    now: Option<SnapshotText>,
    prev: Option<SnapshotText>,
) -> Option<Seq<char>> {
    match (now, prev) {
        (Some(n), Some(p)) => if n == p {
            None
        } else if n.documents == p.documents && n.chunks == p.chunks {
            Some("same document and chunk counts, different contents"@)
        } else {
            Some(
                text::decimal(p.documents as nat) + " -> "@ + text::decimal(n.documents as nat)
                    + " documents, "@ + text::decimal(p.chunks as nat) + " -> "@ + text::decimal(
                    n.chunks as nat,
                ) + " chunks"@,
            )
        },
        _ => None,
    }
}

/// An optional snapshot as characters.
pub open spec fn snapshot_text(o: Option<&CorpusSnapshot>) -> Option<SnapshotText> {
    match o {
        Some(c) => Some(c@),
        None => None,
    }
}

/// Describes the change of the index in one phrase. `None` where there is
/// nothing to compare with, or nothing has changed.
pub fn describe_corpus_change(now: Option<&CorpusSnapshot>, prev: Option<&CorpusSnapshot>) -> (r:
    Option<String>)
    ensures
        text::option_text(r) == corpus_change(snapshot_text(now), snapshot_text(prev)),
{
    let (n, p) = match (now, prev) {
        (Some(n), Some(p)) => (n, p),
        _ => {
            return None;
        },
    };
    if n.same(p) {
        return None;
    }
    if n.documents == p.documents && n.chunks == p.chunks {
        return Some(to_text("same document and chunk counts, different contents"));
    }
    let mut out = String::new();
    push_decimal(&mut out, p.documents as u64);
    proof {
        assert(out@ == text::decimal(p.documents as nat));
    }
    out.append(" -> ");
    push_decimal(&mut out, n.documents as u64);
    out.append(" documents, ");
    push_decimal(&mut out, p.chunks as u64);
    out.append(" -> ");
    push_decimal(&mut out, n.chunks as u64);
    out.append(" chunks");
    Some(out)
}

/// A change is described exactly where two snapshots are there and differ.
pub proof fn change_is_described_iff_known(now: Option<SnapshotText>, prev: Option<SnapshotText>)
    ensures
        corpus_change(now, prev) is Some <==> now is Some && prev is Some && now != prev,
{
}

} // verus!
