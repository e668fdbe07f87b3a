//! The statements and records with which documents are kept, and the facts
//! about the index that are stored beside them.

use crate::db::EMBEDDING_FETCH_BATCH;
use crate::float::Float32;
use crate::tags;
use crate::text;
use crate::text::{chars_of, find, parse_unsigned, push_decimal, same_text, to_text, trim};
use vstd::prelude::*;
use vstd::string::{StrSliceExecFns, StringExecFns};

verus! {

// ---------------------------------------------------------------------------
// The dimension of the vector table
// ---------------------------------------------------------------------------

/// The statement that creates the vector table.
pub open spec fn vec_table_text(dim: nat) -> Seq<char> {
    "CREATE VIRTUAL TABLE vec_chunks "@ + "USING vec0(\n                 chunk_id "@ + "INTEGER PRIMARY KEY,\n                 "@
        + "embedding "@ + "float["@ + text::decimal(dim) + "]\n             )"@
}

/// The statement that creates the vector table for embeddings of the given
/// dimension.
pub fn vec_table_sql(dim: u32) -> (r: String)
    ensures
        r@ == vec_table_text(dim as nat),
{
    let mut out = to_text("CREATE VIRTUAL TABLE vec_chunks ");
    out.append("USING vec0(\n                 chunk_id ");
    out.append("INTEGER PRIMARY KEY,\n                 ");
    out.append("embedding ");
    out.append("float[");
    push_decimal(&mut out, dim as u64);
    out.append("]\n             )");
    out
}

/// The dimension that a statement declares: the number between the first
/// `float[` and the `]` after it.
pub open spec fn declared_dim(sql: Seq<char>) -> Option<nat> {
    match text::position(sql, "float["@, 0) {
        None => None,
        Some(p) => {
            let rest = sql.skip(p + 6);
            match text::position(rest, "]"@, 0) {
                None => None,
                Some(end) => text::unsigned_value(text::trimmed(rest.take(end)), u32::MAX as nat),
            }
        },
    }
}

/// Reads the dimension out of the statement that created the vector table.
pub fn parse_dim_from_create_sql(sql: &str) -> (r: Option<u32>)
    ensures
        match (r, declared_dim(sql@)) {
            (Some(n), Some(d)) => n == d,
            (None, None) => true,
            _ => false,
        },
{
    proof {
        reveal_strlit("float[");
        reveal_strlit("]");
        assert("float["@.len() == 6);
        assert("]"@.len() == 1);
    }
    let all = chars_of(sql);
    let total = all.len();
    let start = match find(&all, &chars_of("float["), 0) {
        Some(p) => {
            assert(p + 6 <= total);
            p + 6
        },
        None => {
            return None;
        },
    };
    let rest = chars_of(sql.substring_char(start, all.len()));
    proof {
        assert(rest@ == sql@.skip(start as int));
    }
    let end = match find(&rest, &chars_of("]"), 0) {
        Some(e) => e,
        None => {
            return None;
        },
    };
    let inner = sql.substring_char(start, start + end);
    proof {
        assert(inner@ == rest@.take(end as int));
    }
    match parse_unsigned(trim(inner), u32::MAX as u64) {
        Some(n) => Some(n as u32),
        None => None,
    }
}

proof fn lemma_position_skips(s: Seq<char>, pattern: Seq<char>, from: int, to: int)
    requires
        0 <= from <= to,
        pattern.len() > 0,
        to + pattern.len() <= s.len(),
        forall|i: int| from <= i < to ==> #[trigger] s[i] != pattern[0],
        s.subrange(to, to + pattern.len()) == pattern,
    ensures
        text::position(s, pattern, from) == Some(to),
    decreases to - from,
{
    if from < to {
        assert(s.subrange(from, from + pattern.len())[0] == s[from]);
        lemma_position_skips(s, pattern, from + 1, to);
    }
}

/// No character of `s` is `c`.
spec fn lacks(s: Seq<char>, c: char) -> bool {
    forall|i: int| 0 <= i < s.len() ==> #[trigger] s[i] != c
}

proof fn lemma_lacks_append(a: Seq<char>, b: Seq<char>, c: char)
    requires
        lacks(a, c),
        lacks(b, c),
    ensures
        lacks(a + b, c),
{
    assert forall|i: int| 0 <= i < (a + b).len() implies #[trigger] (a + b)[i] != c by {
        if i < a.len() {
            assert((a + b)[i] == a[i]);
        } else {
            assert((a + b)[i] == b[i - a.len()]);
        }
    }
}

proof fn lemma_prefix_lacks_f()
    ensures
        lacks("CREATE VIRTUAL TABLE vec_chunks "@, 'f'),
        lacks("USING vec0(\n                 chunk_id "@, 'f'),
        lacks("INTEGER PRIMARY KEY,\n                 "@, 'f'),
        lacks("embedding "@, 'f'),
{
    reveal_strlit("CREATE VIRTUAL TABLE vec_chunks ");
    reveal_strlit("USING vec0(\n                 chunk_id ");
    reveal_strlit("INTEGER PRIMARY KEY,\n                 ");
    reveal_strlit("embedding ");
    assert("CREATE VIRTUAL TABLE vec_chunks "@ =~= seq![
        'C', 'R', 'E', 'A', 'T', 'E', ' ', 'V', 'I', 'R', 'T', 'U', 'A', 'L', ' ', 'T', 'A', 'B',
        'L', 'E', ' ', 'v', 'e', 'c', '_', 'c', 'h', 'u', 'n', 'k', 's', ' ',
    ]);
    assert("USING vec0(\n                 chunk_id "@ =~= seq![
        'U', 'S', 'I', 'N', 'G', ' ', 'v', 'e', 'c', '0', '(', '\n', ' ', ' ', ' ', ' ', ' ', ' ', ' ', ' ', ' ', ' ', ' ', ' ', ' ', ' ', ' ', ' ', ' ', 'c', 'h', 'u', 'n', 'k',
        '_', 'i', 'd', ' ',
    ]);
    assert("INTEGER PRIMARY KEY,\n                 "@ =~= seq![
        'I', 'N', 'T', 'E', 'G', 'E', 'R', ' ', 'P', 'R', 'I', 'M', 'A', 'R', 'Y', ' ', 'K', 'E',
        'Y', ',', '\n', ' ', ' ', ' ', ' ', ' ', ' ', ' ', ' ', ' ', ' ', ' ', ' ', ' ', ' ', ' ', ' ', ' ', 
    ]);
    assert("embedding "@ =~= seq!['e', 'm', 'b', 'e', 'd', 'd', 'i', 'n', 'g', ' ']);
}

proof fn lemma_digits_are_not_trimmed(s: Seq<char>)
    requires
        forall|k: int| 0 <= k < s.len() ==> '0' <= #[trigger] s[k] <= '9',
    ensures
        text::trimmed(s) == s,
{
    if s.len() > 0 {
        assert('0' <= s[0] <= '9');
        assert('0' <= s[s.len() - 1] <= '9');
    }
}

/// The dimension is read back from the statement that declares it.
pub proof fn declared_dim_reads_back(dim: u32)
    ensures
        declared_dim(vec_table_text(dim as nat)) == Some(dim as nat),
{
    let a = "CREATE VIRTUAL TABLE vec_chunks "@;
    let b = "USING vec0(\n                 chunk_id "@;
    let c = "INTEGER PRIMARY KEY,\n                 "@;
    let d = "embedding "@;
    let e = "float["@;
    let f = text::decimal(dim as nat);
    let g = "]\n             )"@;
    let sql = vec_table_text(dim as nat);
    let front = a + b + c + d;
    reveal_strlit("float[");
    reveal_strlit("]");
    reveal_strlit("]\n             )");
    assert(e.len() == 6);
    lemma_prefix_lacks_f();
    lemma_lacks_append(a, b, 'f');
    lemma_lacks_append(a + b, c, 'f');
    lemma_lacks_append(a + b + c, d, 'f');
    let p = front.len() as int;
    assert(sql == front + e + f + g);
    assert(sql.subrange(p, p + 6) == e);
    assert forall|i: int| 0 <= i < p implies #[trigger] sql[i] != e[0] by {
        assert(sql[i] == front[i]);
    }
    lemma_position_skips(sql, e, 0, p);
    let rest = sql.skip(p + 6);
    assert(rest == f + g);
    text::decimal_reads_back(dim as nat, u32::MAX as nat);
    let n = f.len() as int;
    assert("]"@ =~= seq![']']);
    assert(g[0] == ']');
    assert(rest.subrange(n, n + 1) == "]"@);
    assert forall|i: int| 0 <= i < n implies #[trigger] rest[i] != "]"@[0] by {
        assert(rest[i] == f[i]);
    }
    lemma_position_skips(rest, "]"@, 0, n);
    assert(rest.take(n) == f);
    lemma_digits_are_not_trimmed(f);
}

// ---------------------------------------------------------------------------
// Checks against what the index was built with
// ---------------------------------------------------------------------------

/// The vector table holds embeddings of another dimension.
#[derive(Debug, Clone, Copy, PartialEq, Eq, Structural)]
pub struct DimMismatch {
    pub declared: u32,
    pub wanted: u32,
}

impl DimMismatch {
    pub open spec fn text(self) -> Seq<char> {
        "vec_chunks declared float["@ + text::decimal(self.declared as nat)
            + "] but runtime dim is "@ + text::decimal(self.wanted as nat)
            + ". Run index with --force to rebuild."@
    }

    pub fn message(&self) -> (r: String)
        ensures
            r@ == self.text(),
    {
        let mut out = to_text("vec_chunks declared float[");
        push_decimal(&mut out, self.declared as u64);
        out.append("] but runtime dim is ");
        push_decimal(&mut out, self.wanted as u64);
        out.append(". Run index with --force to rebuild.");
        out
    }
}

/// `r` is what is to be done about the table of the vectors.
pub open spec fn table_ensured(
    existing: Option<u32>,
    dim: u32,
    r: Result<Option<String>, DimMismatch>,
) -> bool {
    match r {
        Ok(None) => existing == Some(dim),
        Ok(Some(sql)) => existing is None && sql@ == vec_table_text(dim as nat),
        Err(e) => existing is Some && existing != Some(dim) && e.declared == existing->0 && e.wanted
            == dim,
    }
}

/// What to run so that there is a vector table of the wanted dimension: nothing
/// where there is one, the statement that creates it where there is none. A
/// table of another dimension is an error.
pub fn ensure_vec_chunks_table(existing: Option<u32>, dim: u32) -> (r: Result<
    Option<String>,
    DimMismatch,
>)
    ensures
        table_ensured(existing, dim, r),
        match r {
            Ok(None) => existing == Some(dim),
            Ok(Some(sql)) => existing is None && sql@ == vec_table_text(dim as nat),
            Err(e) => existing is Some && existing != Some(dim) && e == (DimMismatch {
                declared: existing->0,
                wanted: dim,
            }),
        },
{
    match existing {
        Some(declared) => if declared == dim {
            Ok(None)
        } else {
            Err(DimMismatch { declared, wanted: dim })
        },
        None => Ok(Some(vec_table_sql(dim))),
    }
}

/// `r` is what the index has stored of its model.
pub open spec fn meta_read(
    model: Option<String>,
    dim_raw: Option<&str>,
    r: Option<(String, u32)>,
) -> bool {
    match (model, dim_raw) {
        (Some(m), Some(d)) => match (r, text::unsigned_value(d@, u32::MAX as nat)) {
            (Some(x), Some(n)) => x.0 == m && x.1 == n,
            (None, None) => true,
            _ => false,
        },
        _ => r is None,
    }
}

/// The model and dimension that the index has stored: `None` where one of the
/// two is missing or the dimension is no number.
pub fn embedding_meta(model: Option<String>, dim_raw: Option<&str>) -> (r: Option<(String, u32)>)
    ensures
        meta_read(model, dim_raw, r),
        match (model, dim_raw) {
            (Some(m), Some(d)) => match (r, text::unsigned_value(d@, u32::MAX as nat)) {
                (Some(x), Some(n)) => x.0 == m && x.1 == n,
                (None, None) => true,
                _ => false,
            },
            _ => r is None,
        },
{
    match (model, dim_raw) {
        (Some(m), Some(d)) => match parse_unsigned(d, u32::MAX as u64) {
            Some(n) => Some((m, n as u32)),
            None => None,
        },
        _ => None,
    }
}

/// The index was built with another model.
#[derive(Debug, Clone)]
pub struct ModelMismatch {
    pub stored_model: String,
    pub stored_dim: u32,
    pub model: String,
    pub dim: u32,
}

impl ModelMismatch {
    pub open spec fn text(self) -> Seq<char> {
        "embedding model mismatch.\n  DB was indexed with: "@ + self.stored_model@ + " ("@
            + text::decimal(self.stored_dim as nat) + " dim)\n  Current runtime:     "@
            + self.model@ + " ("@ + text::decimal(self.dim as nat)
            + " dim)\n\nRun `kb-mcp index --kb-path <path> --force --model "@ + self.model@
            + "` to rebuild the index, or switch back to the previous model."@
    }

    pub fn message(&self) -> (r: String)
        ensures
            r@ == self.text(),
    {
        let mut out = to_text("embedding model mismatch.\n  DB was indexed with: ");
        out.append(self.stored_model.as_str());
        out.append(" (");
        push_decimal(&mut out, self.stored_dim as u64);
        out.append(" dim)\n  Current runtime:     ");
        out.append(self.model.as_str());
        out.append(" (");
        push_decimal(&mut out, self.dim as u64);
        out.append(" dim)\n\nRun `kb-mcp index --kb-path <path> --force --model ");
        out.append(self.model.as_str());
        out.append("` to rebuild the index, or switch back to the previous model.");
        out
    }
}

/// What to do about the stored model once it was compared with the one in use.
#[derive(Debug, Clone, Copy, PartialEq, Eq, Structural)]
pub enum MetaCheck {
    /// Store the model in use; `migrates` says that the index already holds
    /// chunks from before models were stored.
    Record { migrates: bool },
    /// The same model is stored.
    Keep,
}

/// `r` is what is to be done where `stored` is what the index says of its model.
pub open spec fn meta_checked(
    stored: Option<(String, u32)>,
    chunks: u32,
    model: Seq<char>,
    dim: u32,
    r: Result<MetaCheck, ModelMismatch>,
) -> bool {
    match stored {
        None => r matches Ok(MetaCheck::Record { migrates }) && migrates == (chunks > 0),
        Some((m, d)) => if m@ == model && d == dim {
            r matches Ok(MetaCheck::Keep)
        } else {
            r matches Err(e) && e.stored_model@ == m@ && e.stored_dim == d && e.model@ == model
                && e.dim == dim
        },
    }
}

/// Compares the stored model with the one in use. In both good cases the vector
/// table must then have the dimension in use.
pub fn verify_embedding_meta(
    stored: Option<(String, u32)>,
    chunks: u32,
    model: &str,
    dim: u32,
) -> (r: Result<MetaCheck, ModelMismatch>)
    ensures
        meta_checked(stored, chunks, model@, dim, r),
        match stored {
            None => r matches Ok(MetaCheck::Record { migrates }) && migrates == (chunks > 0),
            Some((m, d)) => if m@ == model@ && d == dim {
                r matches Ok(MetaCheck::Keep)
            } else {
                r matches Err(e) && e.stored_model@ == m@ && e.stored_dim == d && e.model@
                    == model@ && e.dim == dim
            },
        },
{
    match stored {
        None => Ok(MetaCheck::Record { migrates: chunks > 0 }),
        Some((m, d)) => if same_text(m.as_str(), model) && d == dim {
            Ok(MetaCheck::Keep)
        } else {
            Err(
                ModelMismatch {
                    stored_model: m,
                    stored_dim: d,
                    model: to_text(model),
                    dim,
                },
            )
        },
    }
}

/// How a dimension is stored.
pub fn dim_text(dim: u32) -> (r: String)
    ensures
        r@ == text::decimal(dim as nat),
{
    let mut out = String::new();
    push_decimal(&mut out, dim as u64);
    proof {
        assert(Seq::<char>::empty() + text::decimal(dim as nat) == text::decimal(dim as nat));
    }
    out
}

/// A dimension that was stored is read back.
pub proof fn stored_dim_reads_back(dim: u32)
    ensures
        text::unsigned_value(text::decimal(dim as nat), u32::MAX as nat) == Some(dim as nat),
{
    text::decimal_reads_back(dim as nat, u32::MAX as nat);
}

// ---------------------------------------------------------------------------
// Documents and chunks
// ---------------------------------------------------------------------------

/// One statement of storing a document.
#[derive(Debug, Clone, Copy, PartialEq, Eq, Structural)]
pub enum DocumentStep {
    /// Delete the embeddings of the document's chunks.
    DeleteVectors { document_id: i64 },
    /// Delete the full-text rows of the document's chunks.
    DeleteFullText { document_id: i64 },
    /// Delete the document's chunks.
    DeleteChunks { document_id: i64 },
    /// Overwrite the document's row.
    UpdateDocument { document_id: i64 },
    /// Add a row for the document.
    InsertDocument,
}

/// The statements that store a document. One that is known loses its chunks and
/// keeps its id; what refers to the chunks goes before them.
pub open spec fn document_steps(existing: Option<i64>) -> Seq<DocumentStep> {
    match existing {
        Some(document_id) => seq![
            DocumentStep::DeleteVectors { document_id },
            DocumentStep::DeleteFullText { document_id },
            DocumentStep::DeleteChunks { document_id },
            DocumentStep::UpdateDocument { document_id },
        ],
        None => seq![DocumentStep::InsertDocument],
    }
}

/// The statements that store a document, given the id under which it is known.
pub fn upsert_steps(existing: Option<i64>) -> (r: Vec<DocumentStep>)
    ensures
        r@ == document_steps(existing),
{
    let mut out: Vec<DocumentStep> = Vec::new();
    match existing {
        Some(document_id) => {
            out.push(DocumentStep::DeleteVectors { document_id });
            out.push(DocumentStep::DeleteFullText { document_id });
            out.push(DocumentStep::DeleteChunks { document_id });
            out.push(DocumentStep::UpdateDocument { document_id });
        },
        None => {
            out.push(DocumentStep::InsertDocument);
        },
    }
    out
}

/// The columns of a document's row.
#[derive(Debug, Clone)]
pub struct DocumentRecord {
    pub path: String,
    pub title: Option<String>,
    pub topic: Option<String>,
    pub category: Option<String>,
    pub depth: Option<String>,
    pub tags_json: String,
    pub date: Option<String>,
    pub content_hash: String,
    pub last_indexed: String,
}

impl DocumentRecord {
    /// A document's row. Its tags become one JSON text, from which they can be
    /// read again.
    pub fn new(
        path: String,
        title: Option<String>,
        topic: Option<String>,
        category: Option<String>,
        depth: Option<String>,
        tags: &Vec<String>,
        date: Option<String>,
        content_hash: String,
        last_indexed: String,
    ) -> (r: DocumentRecord)
        ensures
            r.path == path,
            r.title == title,
            r.topic == topic,
            r.category == category,
            r.depth == depth,
            r.tags_json@ == tags::json_text(text::texts(tags@)),
            tags::stored_tags(Some(r.tags_json)) == text::texts(tags@),
            r.date == date,
            r.content_hash == content_hash,
            r.last_indexed == last_indexed,
    {
        let tags_json = tags::encode_tags(tags);
        DocumentRecord {
            path,
            title,
            topic,
            category,
            depth,
            tags_json,
            date,
            content_hash,
            last_indexed,
        }
    }
}

/// About how many tokens a content has: one for four bytes, as far as the
/// column can count.
pub fn token_count(content: &str) -> (r: i32)
    ensures
        r == (if text::byte_len(content@) / 4 > i32::MAX {
            i32::MAX as int
        } else {
            (text::byte_len(content@) / 4) as int
        }),
{
    tokens_of_bytes(text::byte_count(content))
}

/// The tokens of a chunk of so many bytes.
pub open spec fn token_estimate(bytes: usize) -> int {
    if bytes / 4 > i32::MAX {
        i32::MAX as int
    } else {
        (bytes / 4) as int
    }
}

/// One token for four bytes, as far as the column can count.
pub fn tokens_of_bytes(bytes: usize) -> (r: i32)
    ensures
        r == token_estimate(bytes),
        r == (if bytes / 4 > i32::MAX {
            i32::MAX as int
        } else {
            (bytes / 4) as int
        }),
{
    let n: usize = bytes / 4;
    if n > i32::MAX as usize {
        i32::MAX
    } else {
        n as i32
    }
}

/// No document has the path that was to be renamed.
#[derive(Debug, Clone)]
pub struct NoSuchDocument {
    pub path: String,
}

impl NoSuchDocument {
    pub open spec fn text(self) -> Seq<char> {
        "rename_document: no document with path '"@ + self.path@ + "' (rows updated: 0)"@
    }

    pub fn message(&self) -> (r: String)
        ensures
            r@ == self.text(),
    {
        let mut out = to_text("rename_document: no document with path '");
        out.append(self.path.as_str());
        out.append("' (rows updated: 0)");
        out
    }
}

/// `r` is what came of a renaming.
pub open spec fn renamed(
    rows_updated: usize,
    old_path: Seq<char>,
    r: Result<(), NoSuchDocument>,
) -> bool {
    match r {
        Ok(_) => rows_updated > 0,
        Err(e) => rows_updated == 0 && e.path@ == old_path,
    }
}

/// Whether a renaming has found its document.
pub fn rename_outcome(rows_updated: usize, old_path: &str) -> (r: Result<(), NoSuchDocument>)
    ensures
        renamed(rows_updated, old_path@, r),
        match r {
            Ok(_) => rows_updated > 0,
            Err(e) => rows_updated == 0 && e.path@ == old_path@,
        },
{
    if rows_updated == 0 {
        Err(NoSuchDocument { path: to_text(old_path) })
    } else {
        Ok(())
    }
}

/// Whether a table has a column, given the names of its columns.
pub fn has_column(names: &Vec<String>, column: &str) -> (r: bool)
    ensures
        r == text::texts(names@).contains(column@),
{
    text::contains_text(names, &to_text(column))
}

/// Whether adding a column failed only because another process has added it.
pub fn column_was_added_meanwhile(error: &str) -> (r: bool)
    ensures
        r == (text::position(error@, "duplicate column"@, 0) is Some),
{
    find(&chars_of(error), &chars_of("duplicate column"), 0).is_some()
}

/// The same letter without regard to ASCII case.
pub open spec fn same_letter(a: char, b: char) -> bool {
    text::ascii_lower(a) == text::ascii_lower(b)
}

/// The same text without regard to ASCII case.
pub open spec fn same_word(a: Seq<char>, b: Seq<char>) -> bool {
    a.len() == b.len() && forall|i: int| 0 <= i < a.len() ==> same_letter(#[trigger] a[i], b[i])
}

fn is_same_word(a: &str, b: &str) -> (r: bool)
    ensures
        r == same_word(a@, b@),
{
    let x = chars_of(a);
    let y = chars_of(b);
    if x.len() != y.len() {
        return false;
    }
    let mut i: usize = 0;
    while i < x.len()
        invariant
            x@ == a@,
            y@ == b@,
            x@.len() == y@.len(),
            i <= x@.len(),
            forall|k: int| 0 <= k < i ==> same_letter(#[trigger] a@[k], b@[k]),
        decreases x@.len() - i,
    {
        if text::to_ascii_lower(x[i]) != text::to_ascii_lower(y[i]) {
            assert(!same_letter(a@[i as int], b@[i as int]));
            return false;
        }
        i += 1;
    }
    true
}

/// The quality that a chunk has until it is rated: a rating within 2^-23 of one
/// says no more than that, and is not worth storing.
pub open spec fn says_nothing(score: Float32) -> bool {
    Float32 { bits: 0x3f7f_fffe }.below(score) && score.below(Float32 { bits: 0x3f80_0001 })
}

/// Whether a rating leaves a chunk as it is.
pub fn keeps_default_quality(score: Float32) -> (r: bool)
    ensures
        r == says_nothing(score),
        score == Float32::one() ==> r,
{
    Float32::from_bits(0x3f7f_fffe).less(score) && score.less(Float32::from_bits(0x3f80_0001))
}

/// Whether a file name's extension is one of those of binary formats, without
/// regard to ASCII case.
pub fn is_binary_extension(extension: &str, binary_exts: &Vec<String>) -> (r: bool)
    ensures
        r == exists|i: int|
            0 <= i < binary_exts@.len() && same_word((#[trigger] binary_exts@[i])@, extension@),
{
    let mut i: usize = 0;
    while i < binary_exts.len()
        invariant
            i <= binary_exts@.len(),
            forall|k: int|
                0 <= k < i ==> !same_word((#[trigger] binary_exts@[k])@, extension@),
        decreases binary_exts@.len() - i,
    {
        if is_same_word(binary_exts[i].as_str(), extension) {
            assert(same_word(binary_exts@[i as int]@, extension@));
            return true;
        }
        i += 1;
    }
    false
}

// ---------------------------------------------------------------------------
// Batches
// ---------------------------------------------------------------------------

/// The placeholders of a statement with `n` parameters: `?1,?2,?3` and so on.
pub open spec fn placeholder_text(n: nat) -> Seq<char>
    decreases n,
{
    if n == 0 {
        Seq::empty()
    } else if n == 1 {
        seq!['?'] + text::decimal(1)
    } else {
        placeholder_text((n - 1) as nat) + seq![',', '?'] + text::decimal(n)
    }
}

/// The placeholders of a statement with `n` parameters.
pub fn placeholders(n: usize) -> (r: String)
    ensures
        r@ == placeholder_text(n as nat),
{
    let mut out = String::new();
    let mut i: usize = 0;
    while i < n
        invariant
            i <= n,
            out@ == placeholder_text(i as nat),
        decreases n - i,
    {
        let ghost before = out@;
        if i > 0 {
            out.push(',');
        }
        out.push('?');
        push_decimal(&mut out, i as u64 + 1);
        i += 1;
        proof {
            if i > 1 {
                assert(before.push(',').push('?') == before + seq![',', '?']);
            } else {
                assert(before == Seq::<char>::empty());
                assert(before.push('?') == seq!['?']);
            }
        }
    }
    out
}

/// The ids in batches of at most `size`.
pub open spec fn batched(ids: Seq<i64>, size: nat) -> Seq<Seq<i64>>
    decreases ids.len(),
{
    if ids.len() == 0 || size == 0 {
        Seq::empty()
    } else if ids.len() <= size {
        seq![ids]
    } else {
        seq![ids.take(size as int)] + batched(ids.skip(size as int), size)
    }
}

/// The batches as sequences.
pub open spec fn batch_views(v: Seq<Vec<i64>>) -> Seq<Seq<i64>> {
    Seq::new(v.len(), |i: int| v[i]@)
}

/// The ids in the batches in which their embeddings are fetched.
pub fn embedding_batches(ids: &Vec<i64>) -> (r: Vec<Vec<i64>>)
    ensures
        batch_views(r@) == batched(ids@, EMBEDDING_FETCH_BATCH as nat),
{
    let mut out: Vec<Vec<i64>> = Vec::new();
    let mut i: usize = 0;
    proof {
        assert(ids@.skip(0) == ids@);
        let all = batched(ids@, EMBEDDING_FETCH_BATCH as nat);
        assert(batch_views(out@) + all == all);
    }
    while i < ids.len()
        invariant
            i <= ids@.len(),
            batch_views(out@) + batched(ids@.skip(i as int), EMBEDDING_FETCH_BATCH as nat)
                == batched(ids@, EMBEDDING_FETCH_BATCH as nat),
        decreases ids@.len() - i,
    {
        let end: usize = if ids.len() - i <= EMBEDDING_FETCH_BATCH {
            ids.len()
        } else {
            i + EMBEDDING_FETCH_BATCH
        };
        let mut batch: Vec<i64> = Vec::new();
        let mut k: usize = i;
        while k < end
            invariant
                i <= k <= end <= ids@.len(),
                batch@ == ids@.subrange(i as int, k as int),
            decreases end - k,
        {
            batch.push(ids[k]);
            k += 1;
            proof {
                assert(ids@.subrange(i as int, k as int) == ids@.subrange(i as int, k - 1).push(
                    ids@[k - 1],
                ));
            }
        }
        let ghost before = batch_views(out@);
        let ghost rest = ids@.skip(i as int);
        let ghost one = seq![batch@];
        out.push(batch);
        proof {
            assert(batch_views(out@) == before + one);
            if end == ids@.len() {
                assert(batch@ == rest);
                assert(ids@.skip(end as int) == Seq::<i64>::empty());
                assert(batched(ids@.skip(end as int), EMBEDDING_FETCH_BATCH as nat)
                    == Seq::<Seq<i64>>::empty());
                assert(before + one == (before + one) + Seq::<Seq<i64>>::empty());
            } else {
                assert(batch@ == rest.take(EMBEDDING_FETCH_BATCH as int));
                assert(rest.skip(EMBEDDING_FETCH_BATCH as int) == ids@.skip(end as int));
                let later = batched(ids@.skip(end as int), EMBEDDING_FETCH_BATCH as nat);
                assert(before + (one + later) == (before + one) + later);
            }
        }
        i = end;
    }
    proof {
        assert(batch_views(out@) + Seq::<Seq<i64>>::empty() == batch_views(out@));
    }
    out
}

/// The ids of all batches, one after the other.
pub open spec fn flat(bs: Seq<Seq<i64>>) -> Seq<i64>
    decreases bs.len(),
{
    if bs.len() == 0 {
        Seq::empty()
    } else {
        bs[0] + flat(bs.skip(1))
    }
}

/// Batches lose no id, keep the order, and are neither empty nor too large.
pub proof fn batches_hold_every_id(ids: Seq<i64>, size: nat)
    requires
        size > 0,
    ensures
        flat(batched(ids, size)) == ids,
        forall|i: int|
            0 <= i < batched(ids, size).len() ==> 0 < (#[trigger] batched(ids, size)[i]).len()
                <= size,
    decreases ids.len(),
{
    let bs = batched(ids, size);
    if ids.len() == 0 {
        assert(flat(bs) == ids);
    } else if ids.len() <= size {
        assert(bs.skip(1) == Seq::<Seq<i64>>::empty());
        assert(flat(bs.skip(1)) == Seq::<i64>::empty());
        assert(flat(bs) =~= ids);
    } else {
        let rest = batched(ids.skip(size as int), size);
        batches_hold_every_id(ids.skip(size as int), size);
        assert(bs.skip(1) == rest);
        assert(bs[0] == ids.take(size as int));
        assert(flat(bs) =~= ids);
        assert forall|i: int| 0 <= i < bs.len() implies 0 < (#[trigger] bs[i]).len() <= size by {
            if i > 0 {
                assert(bs[i] == rest[i - 1]);
            }
        }
    }
}

} // verus!
