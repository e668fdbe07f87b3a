//! What is written to and read from the index, said of the values alone.

use crate::corpus;
use crate::graph;
use crate::graph::GraphError;
use crate::sort;
use crate::store;
use crate::store::{DimMismatch, DocumentStep, MetaCheck, ModelMismatch, NoSuchDocument};
use crate::tags;
use crate::text;
use crate::text_laws;
use vstd::prelude::*;

verus! {

/// The batches of a list, one after the other, are the list; all are full but the last.
pub proof fn batches_are_full_but_the_last(ids: Seq<i64>, size: nat, i: int)
    requires
        size > 0,
    ensures
        ids.len() == 0 <==> store::batched(ids, size).len() == 0,
        0 <= i < store::batched(ids, size).len() - 1 ==> store::batched(ids, size)[i].len()
            == size,
        0 <= i < store::batched(ids, size).len() ==> size * i < ids.len() && store::batched(
            ids,
            size,
        )[i] == ids.subrange(
            size * i,
            if size * (i + 1) < ids.len() {
                size * (i + 1)
            } else {
                ids.len() as int
            },
        ),
    decreases ids.len(),
{
    let all = store::batched(ids, size);
    if ids.len() == 0 {
    } else if ids.len() <= size {
        assert(ids.subrange(0, ids.len() as int) =~= ids);
        assert(size * 0 == 0);
        assert(size * 1 == size) by (nonlinear_arith);
    } else {
        let rest = ids.skip(size as int);
        let later = store::batched(rest, size);
        batches_are_full_but_the_last(rest, size, i - 1);
        batches_are_full_but_the_last(rest, size, 0);
        assert(size * 0 == 0);
        assert(size * 1 == size) by (nonlinear_arith);
        if i == 0 {
            assert(all[0] =~= ids.subrange(0, size as int));
        } else if 0 < i < all.len() {
            assert(all[i] == later[i - 1]);
            assert(size * i == size * (i - 1) + size) by (nonlinear_arith);
            assert(size * (i + 1) == size * i + size) by (nonlinear_arith);
            assert(size * ((i - 1) + 1) == size * i);
            let top = if size * i < rest.len() {
                size * i
            } else {
                rest.len() as int
            };
            assert(later[i - 1] == rest.subrange(size * (i - 1), top));
            assert(0 <= size * (i - 1)) by (nonlinear_arith)
                requires
                    i >= 1,
            ;
            assert(rest.subrange(size * (i - 1), top) =~= ids.subrange(
                size * i,
                if size * (i + 1) < ids.len() {
                    size * (i + 1)
                } else {
                    ids.len() as int
                },
            ));
        }
    }
}

/// A placeholder for each value, numbered from 1 on, with commas between them.
pub proof fn placeholders_are_numbered_from_one(n: nat)
    ensures
        store::placeholder_text(0).len() == 0,
        store::placeholder_text(1) == seq!['?'] + text::decimal(1),
        n >= 1 ==> store::placeholder_text(n + 1) == store::placeholder_text(n) + seq![',', '?']
            + text::decimal(n + 1),
{
}

/// A document that is there already is emptied before it is written anew: its vectors, its
/// full text and its chunks go first, all of the document itself. One that is not there is
/// only written.
pub proof fn documents_are_emptied_before_they_are_written(existing: Option<i64>)
    ensures
        existing is None ==> store::document_steps(existing) == seq![DocumentStep::InsertDocument],
        existing matches Some(id) ==> {
            let steps = store::document_steps(existing);
            &&& steps.len() == 4
            &&& steps[0] == DocumentStep::DeleteVectors { document_id: id }
            &&& steps[1] == DocumentStep::DeleteFullText { document_id: id }
            &&& steps[2] == DocumentStep::DeleteChunks { document_id: id }
            &&& steps[3] == DocumentStep::UpdateDocument { document_id: id }
        },
{
}

/// The dimension that a table was made with is the number between the first `float[` and
/// the next `]`, without the whitespace around it.
pub proof fn dimensions_stand_between_brackets(
    before: Seq<char>,
    inner: Seq<char>,
    after: Seq<char>,
)
    requires
        forall|p: int|
            0 <= p < before.len() ==> !#[trigger] text_laws::stands_at(
                before + "float["@ + inner + "]"@ + after,
                "float["@,
                p,
            ),
        !inner.contains(']'),
    ensures
        store::declared_dim(before + "float["@ + inner + "]"@ + after) == text::unsigned_value(
            text::trimmed(inner),
            u32::MAX as nat,
        ),
{
    reveal_strlit("float[");
    reveal_strlit("]");
    let sql = before + "float["@ + inner + "]"@ + after;
    let n = before.len() as int;
    text_laws::searching_finds_the_first_place(sql, "float["@, 0);
    assert(sql.subrange(n, n + 6) =~= "float["@);
    assert(text_laws::stands_at(sql, "float["@, n));
    assert(text::position(sql, "float["@, 0) == Some(n));
    let rest = sql.skip(n + 6);
    assert(rest =~= inner + "]"@ + after);
    let m = inner.len() as int;
    text_laws::searching_finds_the_first_place(rest, "]"@, 0);
    assert(rest.subrange(m, m + 1) =~= "]"@);
    assert(text_laws::stands_at(rest, "]"@, m));
    let end = text::position(rest, "]"@, 0)->0;
    assert(end == m) by {
        if end < m {
            assert(rest.subrange(end, end + 1)[0] == "]"@[0]);
            assert(rest[end] == inner[end]);
            assert(inner.contains(']'));
        }
    }
    assert(rest.take(m) =~= inner);
}

/// Extensions are told apart without regard to the case of ASCII letters.
pub proof fn case_does_not_matter_to_extensions(a: Seq<char>, b: Seq<char>)
    ensures
        store::same_word(a, b) <==> a.map_values(|c: char| text::ascii_lower(c)) == b.map_values(
            |c: char| text::ascii_lower(c),
        ),
{
    let lower = |c: char| text::ascii_lower(c);
    let (x, y) = (a.map_values(lower), b.map_values(lower));
    if store::same_word(a, b) {
        assert forall|i: int| 0 <= i < a.len() implies x[i] == y[i] by {
            assert(store::same_letter(a[i], b[i]));
        }
        assert(x =~= y);
    }
    if x == y {
        assert(a.len() == x.len() && b.len() == y.len());
        assert forall|i: int| 0 <= i < a.len() implies store::same_letter(
            #[trigger] a[i],
            b[i],
        ) by {
            assert(x[i] == y[i]);
        }
    }
}

/// Counting goes up by one, and starts again from nothing past the end.
pub proof fn counting_goes_up_by_one(n: u64)
    ensures
        n < u64::MAX ==> tags::counted_up(n) == n + 1,
        n == u64::MAX ==> tags::counted_up(n) == 0,
{
}

// ---------------------------------------------------------------------------
// The listing of documents
// ---------------------------------------------------------------------------

/// Documents are listed in order of their paths, and of their hashes where two have the same
/// path, each of them as often as it is there.
pub proof fn documents_are_listed_by_path(
    es: Seq<(Seq<char>, Seq<char>)>,
    i: int,
    j: int,
)
    ensures
        corpus::sorted_entries(es).to_multiset() == es.to_multiset(),
        corpus::sorted_entries(es).len() == es.len(),
        0 <= i < j < es.len() ==> {
            let a = corpus::sorted_entries(es)[i];
            let b = corpus::sorted_entries(es)[j];
            !text::precedes(b.0, a.0) && (a.0 == b.0 ==> !text::precedes(b.1, a.1))
        },
{
    let less = |a: (Seq<char>, Seq<char>), b: (Seq<char>, Seq<char>)| corpus::entry_precedes(a, b);
    sort::arranging_keeps_the_elements(es, less);
    assert(sort::orders(es, less)) by {
        assert forall|a: (Seq<char>, Seq<char>), b: (Seq<char>, Seq<char>)| #[trigger]
            es.contains(a) && #[trigger] es.contains(b) implies !(less(a, b) && less(b, a)) && (
        less(a, b) || less(b, a) || a == b) by {
            text::precedes_is_a_strict_total_order(a.0, b.0, a.0);
            text::precedes_is_a_strict_total_order(a.1, b.1, a.1);
        }
        assert forall|
            a: (Seq<char>, Seq<char>),
            b: (Seq<char>, Seq<char>),
            c: (Seq<char>, Seq<char>),
        |
            #![trigger es.contains(a), es.contains(b), es.contains(c)]
            es.contains(a) && es.contains(b) && es.contains(c) && less(a, b) && less(
                b,
                c,
            ) implies less(a, c) by {
            text::precedes_is_a_strict_total_order(a.0, b.0, c.0);
            text::precedes_is_a_strict_total_order(a.1, b.1, c.1);
        }
    }
    sort::arranging_puts_in_order(es, less);
    if 0 <= i < j < es.len() {
        let all = corpus::sorted_entries(es);
        assert(!less(all[j], all[i]));
    }
}

/// A document is listed as its path, a NUL, its hash and a line end; a listing is these lines
/// one after the other.
pub proof fn listings_are_lines(e: (Seq<char>, Seq<char>), es: Seq<(Seq<char>, Seq<char>)>)
    ensures
        corpus::listing(Seq::empty()) == Seq::<char>::empty(),
        corpus::listing(seq![e] + es) == e.0 + seq!['\0'] + e.1 + seq!['\n'] + corpus::listing(es),
{
    let all = seq![e] + es;
    assert(all.skip(1) =~= es);
    assert(all[0] == e);
    assert(corpus::entry_line(e) =~= e.0 + seq!['\0'] + e.1 + seq!['\n']);
}

/// The digest of the documents is that of the listing of all of them, in order of path; it
/// does not depend on the order in which they come.
pub proof fn digests_are_over_every_document(
    a: Seq<(String, String)>,
    b: Seq<(String, String)>,
)
    ensures
        corpus::digest_of(a) == corpus::sha256_hex(
            vstd::utf8::encode_utf8(corpus::listing(corpus::sorted_entries(corpus::entry_texts(a)))),
        ),
        corpus::entry_texts(a).to_multiset() == corpus::entry_texts(b).to_multiset()
            ==> corpus::digest_of(a) == corpus::digest_of(b),
{
    if corpus::entry_texts(a).to_multiset() == corpus::entry_texts(b).to_multiset() {
        corpus::digest_forgets_the_order(corpus::entry_texts(a), corpus::entry_texts(b));
    }
}

/// An excluded path is too large above 1024 bytes.
pub proof fn excluded_paths_are_bounded_in_bytes(entry: Seq<char>)
    requires
        vstd::utf8::encode_utf8(entry).len() <= usize::MAX,
    ensures
        graph::oversized(entry) <==> vstd::utf8::encode_utf8(entry).len() > 1024,
        text::byte_len(entry) == vstd::utf8::encode_utf8(entry).len(),
{
}

/// The paths excluded are let pass exactly where there are no more than 64 of them and none
/// has more than 1024 bytes. Too many are refused before any is looked at; of those that
/// are too large the first is named, with its size.
pub proof fn excluded_paths_are_few_and_short(
    paths: Seq<String>,
    r: Result<(), GraphError>,
)
    requires
        graph::paths_checked(paths, r),
        forall|i: int|
            0 <= i < paths.len() ==> vstd::utf8::encode_utf8((#[trigger] paths[i])@).len()
                <= usize::MAX,
    ensures
        r is Ok <==> paths.len() <= 64 && forall|i: int|
            0 <= i < paths.len() ==> vstd::utf8::encode_utf8((#[trigger] paths[i])@).len() <= 1024,
        paths.len() > 64 ==> (r matches Err(GraphError::TooManyEntries { count }) && count
            == paths.len()),
        paths.len() <= 64 && r is Err ==> {
            &&& r matches Err(GraphError::EntryTooLarge { index, bytes })
            &&& index < paths.len()
            &&& bytes == vstd::utf8::encode_utf8(paths[index as int]@).len()
            &&& bytes > 1024
            &&& forall|i: int|
                0 <= i < index ==> vstd::utf8::encode_utf8((#[trigger] paths[i])@).len() <= 1024
        },
{
    assert forall|i: int| 0 <= i < paths.len() implies (graph::oversized((#[trigger] paths[i])@)
        <==> vstd::utf8::encode_utf8(paths[i]@).len() > 1024) by {
        excluded_paths_are_bounded_in_bytes(paths[i]@);
    }
    match r {
        Err(GraphError::EntryTooLarge { index, bytes }) => {
            excluded_paths_are_bounded_in_bytes(paths[index as int]@);
        },
        _ => {},
    }
}

/// An index keeps its model exactly where both the model and the dimension are the same;
/// where one differs, both sides are named; where none is stored, it is recorded, and the
/// chunks that are there already are told of.
pub proof fn another_model_is_refused(
    stored: Option<(String, u32)>,
    chunks: u32,
    model: Seq<char>,
    dim: u32,
    r: Result<MetaCheck, ModelMismatch>,
)
    requires
        store::meta_checked(stored, chunks, model, dim, r),
    ensures
        r is Err <==> stored is Some && ((stored->0).0@ != model || (stored->0).1 != dim),
        r is Err ==> (r->Err_0).stored_model@ == (stored->0).0@,
        r is Err ==> (r->Err_0).stored_dim == (stored->0).1,
        r is Err ==> (r->Err_0).model@ == model && (r->Err_0).dim == dim,
        r is Ok && stored is Some ==> r->Ok_0 is Keep,
        r is Ok && stored is None ==> r->Ok_0 is Record && (r->Ok_0->migrates <==> chunks > 0),
{
}

/// What an index says of its model is known exactly where both the model and a dimension
/// that is a number are stored.
pub proof fn models_are_read_with_their_dimensions(
    model: Option<String>,
    dim_raw: Option<&str>,
    r: Option<(String, u32)>,
)
    requires
        store::meta_read(model, dim_raw, r),
    ensures
        r is Some <==> model is Some && dim_raw is Some && text::unsigned_value(
            dim_raw->0@,
            u32::MAX as nat,
        ) is Some,
        r is Some ==> (r->0).0 == model->0,
        r is Some ==> text::unsigned_value(dim_raw->0@, u32::MAX as nat) == Some(
            (r->0).1 as nat,
        ),
{
}

/// The table of the vectors is made exactly where there is none, kept where it has the
/// dimension, and refused where it has another.
pub proof fn tables_are_made_once(
    existing: Option<u32>,
    dim: u32,
    r: Result<Option<String>, DimMismatch>,
)
    requires
        store::table_ensured(existing, dim, r),
    ensures
        existing is None <==> r is Ok && r->Ok_0 is Some,
        r is Err <==> existing is Some && existing->0 != dim,
        r is Err ==> (r->Err_0).declared == existing->0 && (r->Err_0).wanted == dim,
        r is Ok && r->Ok_0 is Some ==> r->Ok_0->0@ == store::vec_table_text(dim as nat),
{
}

/// Four bytes make a token, whatever is over is not counted, and the estimate stops at the
/// largest number there is.
pub proof fn four_bytes_make_a_token(bytes: usize)
    ensures
        bytes / 4 <= 0x7fff_ffff ==> 4 * store::token_estimate(bytes) <= bytes < 4
            * store::token_estimate(bytes) + 4,
        bytes / 4 > 0x7fff_ffff ==> store::token_estimate(bytes) == 0x7fff_ffff,
{
}

/// A renaming fails exactly where no row was changed, and names the path.
pub proof fn renaming_needs_a_document(
    rows_updated: usize,
    old_path: Seq<char>,
    r: Result<(), NoSuchDocument>,
)
    requires
        store::renamed(rows_updated, old_path, r),
    ensures
        r is Err <==> rows_updated == 0,
        r is Err ==> (r->Err_0).path@ == old_path,
{
}

/// The failures of all sessions are added up, and the count stays at the largest number
/// once it is there; what is stored is what was counted, and nothing where nothing was.
pub proof fn failures_add_up(delta: u64, persisted: Option<u64>)
    ensures
        persisted is None ==> tags::total_of(delta, persisted) == delta,
        persisted is Some && delta + persisted->0 <= u64::MAX ==> tags::total_of(delta, persisted)
            == delta + persisted->0,
        persisted is Some && delta + persisted->0 > u64::MAX ==> tags::total_of(delta, persisted)
            == u64::MAX,
        tags::delta_to_store(delta) is None <==> delta == 0,
        0 < delta <= i64::MAX ==> tags::delta_to_store(delta)->0 == delta,
        delta > i64::MAX ==> tags::delta_to_store(delta) == Some(i64::MAX),
{
}

} // verus!
