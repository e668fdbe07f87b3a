//! A hybrid search: what is asked of the index, which rows are kept, and how
//! the two rankings become one.

use crate::db;
use crate::db::{
    filter_row, CandidateRow, FusionParams, ResultText, SearchFilters, SearchResult,
    FILTER_OVERFETCH_CAP, FILTER_OVERFETCH_FACTOR, VEC_KNN_MAX_K,
};
use crate::float::Float32;
use crate::fts_query;
use crate::sort;
use crate::tags;
use crate::tags::TagFailures;
use crate::text;
use vstd::prelude::*;
use vstd::string::StrSliceExecFns;

verus! {

// ---------------------------------------------------------------------------
// Requests
// ---------------------------------------------------------------------------

/// The query as one phrase, or `None` where it is too short for the index.
pub open spec fn sanitized(raw: Seq<char>) -> Option<Seq<char>> {
    let t = text::trimmed(raw);
    if t.len() < fts_query::MIN_PHRASE_CHARS {
        None
    } else {
        Some(fts_query::quoted(t))
    }
}

/// The query as one phrase: trimmed, its quotes doubled, and quoted, so that
/// nothing in it reads as an operator. `None` where it is too short.
pub fn sanitize_fts_query(raw: &str) -> (r: Option<String>)
    ensures
        text::option_text(r) == sanitized(raw@),
{
    let t = text::trim(raw);
    if t.unicode_len() < fts_query::MIN_PHRASE_CHARS {
        None
    } else {
        Some(fts_query::quote(t))
    }
}

/// How many candidates are fetched for `limit` wanted ones.
pub open spec fn overfetched(limit: u32, filtered: bool) -> u32 {
    if !filtered {
        limit
    } else if limit * FILTER_OVERFETCH_FACTOR < FILTER_OVERFETCH_CAP {
        (limit * FILTER_OVERFETCH_FACTOR) as u32
    } else {
        FILTER_OVERFETCH_CAP
    }
}

fn overfetch(limit: u32, filtered: bool) -> (r: u32)
    ensures
        r == overfetched(limit, filtered),
{
    if !filtered {
        limit
    } else if limit < FILTER_OVERFETCH_CAP / FILTER_OVERFETCH_FACTOR {
        limit * FILTER_OVERFETCH_FACTOR
    } else {
        FILTER_OVERFETCH_CAP
    }
}

/// What the full-text index is asked: an expression, a number of rows, and the
/// weights of the columns.
#[derive(Debug, Clone)]
pub struct FtsRequest {
    pub expression: String,
    pub fetch_limit: u32,
    pub heading_weight: Float32,
    pub context_weight: Float32,
    pub content_weight: Float32,
}

/// A request as characters.
pub struct FtsRequestText {
    pub expression: Seq<char>,
    pub fetch_limit: u32,
    pub heading_weight: Float32,
    pub context_weight: Float32,
    pub content_weight: Float32,
}

impl View for FtsRequest {
    type V = FtsRequestText;

    open spec fn view(&self) -> FtsRequestText {
        FtsRequestText {
            expression: self.expression@,
            fetch_limit: self.fetch_limit,
            heading_weight: self.heading_weight,
            context_weight: self.context_weight,
            content_weight: self.content_weight,
        }
    }
}

/// What a query asks of the full-text index; `None` where it asks nothing.
pub open spec fn fts_request(
    query: Seq<char>,
    limit: u32,
    filtered: bool,
    fusion: FusionParams,
) -> Option<FtsRequestText> {
    match sanitized(query) {
        None => None,
        Some(expression) => Some(
            FtsRequestText {
                expression,
                fetch_limit: overfetched(limit, filtered),
                heading_weight: fusion.bm25_heading_weight,
                context_weight: fusion.bm25_context_weight,
                content_weight: fusion.bm25_content_weight,
            },
        ),
    }
}

/// What a query asks of the full-text index. `None` means that the index has
/// nothing to answer and the search has no full-text candidates.
pub fn plan_fts_search(
    query_text: &str,
    limit: u32,
    filters: &SearchFilters<'_>,
    fusion: FusionParams,
) -> (r: Option<FtsRequest>)
    ensures
        match (r, fts_request(query_text@, limit, filters.asks(), fusion)) {
            (Some(a), Some(b)) => a@ == b,
            (None, None) => true,
            _ => false,
        },
{
    match sanitize_fts_query(query_text) {
        None => None,
        Some(expression) => Some(
            FtsRequest {
                expression,
                fetch_limit: overfetch(limit, filters.has_any()),
                heading_weight: fusion.bm25_heading_weight,
                context_weight: fusion.bm25_context_weight,
                content_weight: fusion.bm25_content_weight,
            },
        ),
    }
}

/// Full-text candidates do not depend on the constant of the reciprocal ranks:
/// one answer of the index serves every value of it.
pub proof fn fts_request_ignores_rrf_k(
    query: Seq<char>,
    limit: u32,
    filtered: bool,
    fusion: FusionParams,
    k: Float32,
)
    ensures
        fts_request(query, limit, filtered, fusion) == fts_request(
            query,
            limit,
            filtered,
            FusionParams { rrf_k: k, ..fusion },
        ),
{
}

/// How many neighbours are asked for: enough for the filters, and no more than
/// one query may ask for.
pub open spec fn neighbours_asked(limit: u32, filtered: bool) -> u32 {
    if overfetched(limit, filtered) < VEC_KNN_MAX_K {
        overfetched(limit, filtered)
    } else {
        VEC_KNN_MAX_K
    }
}

/// How many neighbours a search asks the vector index for.
pub fn plan_vec_search(limit: u32, filters: &SearchFilters<'_>) -> (r: u32)
    ensures
        r == neighbours_asked(limit, filters.asks()),
        r <= VEC_KNN_MAX_K,
{
    let k = overfetch(limit, filters.has_any());
    if k < VEC_KNN_MAX_K {
        k
    } else {
        VEC_KNN_MAX_K
    }
}

/// How many candidates each side contributes to `limit` fused hits.
pub open spec fn pool_for(limit: u32) -> u32 {
    if limit < 10 {
        50
    } else if limit * 5 > u32::MAX {
        u32::MAX
    } else {
        (limit * 5) as u32
    }
}

/// How many candidates each side contributes to `limit` fused hits: five times
/// as many, and never fewer than fifty.
pub fn hybrid_pool(limit: u32) -> (r: u32)
    ensures
        r == pool_for(limit),
        r == (if limit < 10 {
            50
        } else if limit * 5 > u32::MAX {
            u32::MAX as int
        } else {
            limit * 5
        }),
{
    if limit < 10 {
        50
    } else if limit > u32::MAX / 5 {
        u32::MAX
    } else {
        limit * 5
    }
}

/// How many candidates each side contributes where the fused list is not cut.
pub open spec fn whole_pool(desired: u32) -> u32 {
    if desired < 50 {
        50
    } else {
        desired
    }
}

/// How many candidates each side contributes where the fused list is not cut:
/// as many as wanted, and never fewer than fifty.
pub fn unbounded_pool(desired: u32) -> (r: u32)
    ensures
        r == whole_pool(desired),
        r == (if desired < 50 {
            50
        } else {
            desired
        }),
{
    if desired < 50 {
        50
    } else {
        desired
    }
}

// ---------------------------------------------------------------------------
// Candidates
// ---------------------------------------------------------------------------

/// The hits of the rows that the filters keep, in the order of the rows.
pub open spec fn kept_hits(rows: Seq<CandidateRow>, filters: SearchFilters<'_>) -> Seq<
    (i64, ResultText),
>
    decreases rows.len(),
{
    if rows.len() == 0 {
        Seq::empty()
    } else {
        let front = kept_hits(rows.drop_last(), filters);
        if db::passes(rows.last(), filters) {
            front.push(db::hit_of(rows.last()))
        } else {
            front
        }
    }
}

/// Enough hits have been found. Hits are counted after one is added, so even a
/// limit of zero takes one.
pub open spec fn enough(found: nat, limit: u32) -> bool {
    found > 0 && found >= limit
}

/// How many rows are looked at: up to the one whose hit is the last wanted.
pub open spec fn rows_read(rows: Seq<CandidateRow>, filters: SearchFilters<'_>, limit: u32) -> nat
    decreases rows.len(),
{
    if rows.len() == 0 {
        0
    } else {
        let before = rows_read(rows.drop_last(), filters, limit);
        if before < rows.len() - 1 || enough(kept_hits(rows.drop_last(), filters).len(), limit) {
            before
        } else {
            rows.len()
        }
    }
}

/// How many tag lists are counted as unreadable over the rows, starting from
/// `count`.
pub open spec fn counted_failures(
    rows: Seq<CandidateRow>,
    filters: SearchFilters<'_>,
    count: u64,
) -> u64
    decreases rows.len(),
{
    if rows.len() == 0 {
        count
    } else {
        let before = counted_failures(rows.drop_last(), filters, count);
        if db::passes_columns(rows.last(), filters) && tags::malformed_tags(rows.last().tags_json) {
            tags::counted_up(before)
        } else {
            before
        }
    }
}

/// Takes the rows of one search one by one until it has enough hits.
#[derive(Debug)]
pub struct CandidateCollector<'a> {
    pub filters: SearchFilters<'a>,
    pub limit: u32,
    pub hits: Vec<(i64, SearchResult)>,
}

impl<'a> CandidateCollector<'a> {
    pub fn new(limit: u32, filters: SearchFilters<'a>) -> (r: Self)
        ensures
            r.filters == filters,
            r.limit == limit,
            r.hits@.len() == 0,
    {
        CandidateCollector { filters, limit, hits: Vec::new() }
    }

    /// Whether the collector wants no more rows.
    pub open spec fn is_full(&self) -> bool {
        enough(self.hits@.len(), self.limit)
    }

    /// Whether the collector wants no more rows.
    pub fn full(&self) -> (r: bool)
        ensures
            r == self.is_full(),
    {
        self.hits.len() > 0 && self.hits.len() >= self.limit as usize
    }

    /// Takes one row: adds its hit where the filters keep it. Says whether the
    /// collector has enough.
    pub fn offer(&mut self, row: CandidateRow, failures: &mut TagFailures) -> (full: bool)
        ensures
            final(self).filters == old(self).filters,
            final(self).limit == old(self).limit,
            db::hit_texts(final(self).hits@) == (if db::passes(row, old(self).filters) {
                db::hit_texts(old(self).hits@).push(db::hit_of(row))
            } else {
                db::hit_texts(old(self).hits@)
            }),
            db::passes(row, old(self).filters) || final(self).hits@ == old(self).hits@,
            full == final(self).is_full(),
            final(failures).delta == (if db::passes_columns(row, old(self).filters)
                && tags::malformed_tags(row.tags_json) {
                tags::counted_up(old(failures).delta)
            } else {
                old(failures).delta
            }),
    {
        let ghost before = db::hit_texts(self.hits@);
        match filter_row(row, &self.filters, failures) {
            Some(hit) => {
                self.hits.push(hit);
                proof {
                    assert(db::hit_texts(self.hits@) == before.push(db::hit_of(row)));
                }
            },
            None => {},
        }
        self.full()
    }
}

proof fn lemma_rows_read_stays(
    rows: Seq<CandidateRow>,
    filters: SearchFilters<'_>,
    limit: u32,
    n: int,
)
    requires
        0 <= n <= rows.len(),
        rows_read(rows.take(n), filters, limit) == n,
        n < rows.len() ==> enough(kept_hits(rows.take(n), filters).len(), limit),
    ensures
        rows_read(rows, filters, limit) == n,
    decreases rows.len() - n,
{
    if n < rows.len() {
        assert(rows.take(n + 1).drop_last() == rows.take(n));
        lemma_rows_read_from(rows, filters, limit, n, n + 1);
    } else {
        assert(rows.take(n) == rows);
    }
}

proof fn lemma_rows_read_from(
    rows: Seq<CandidateRow>,
    filters: SearchFilters<'_>,
    limit: u32,
    n: int,
    m: int,
)
    requires
        0 <= n < m <= rows.len(),
        rows_read(rows.take(m), filters, limit) == n,
    ensures
        rows_read(rows, filters, limit) == n,
    decreases rows.len() - m,
{
    if m < rows.len() {
        assert(rows.take(m + 1).drop_last() == rows.take(m));
        lemma_rows_read_from(rows, filters, limit, n, m + 1);
    } else {
        assert(rows.take(m) == rows);
    }
}

/// The hits of one search out of the rows that the index returned, best first:
/// those of the first rows that pass the filters, as many as wanted.
pub fn collect_candidates(
    rows: Vec<CandidateRow>,
    limit: u32,
    filters: &SearchFilters<'_>,
    failures: &mut TagFailures,
) -> (r: Vec<(i64, SearchResult)>)
    ensures
        ({
            let read = rows@.take(rows_read(rows@, *filters, limit) as int);
            &&& db::hit_texts(r@) == kept_hits(read, *filters)
            &&& final(failures).delta == counted_failures(read, *filters, old(failures).delta)
        }),
{
    let ghost all = rows@;
    let ghost start = failures.delta;
    let mut hits: Vec<(i64, SearchResult)> = Vec::new();
    let mut rest = rows;
    let ghost mut n: int = 0;
    let mut reversed: Vec<CandidateRow> = Vec::new();
    while rest.len() > 0
        invariant
            rest@.len() + reversed@.len() == all.len(),
            forall|k: int| 0 <= k < rest@.len() ==> rest@[k] == all[k],
            forall|k: int|
                0 <= k < reversed@.len() ==> #[trigger] reversed@[k] == all[all.len() - 1 - k],
        decreases rest@.len(),
    {
        match rest.pop() {
            Some(row) => {
                reversed.push(row);
            },
            None => {},
        }
    }
    proof {
        assert(db::hit_texts(hits@) == kept_hits(all.take(0), *filters));
        assert(rows_read(all.take(0), *filters, limit) == 0);
    }
    while reversed.len() > 0 && !(hits.len() > 0 && hits.len() >= limit as usize)
        invariant
            0 <= n <= all.len(),
            reversed@.len() == all.len() - n,
            forall|k: int|
                0 <= k < reversed@.len() ==> #[trigger] reversed@[k] == all[all.len() - 1 - k],
            db::hit_texts(hits@) == kept_hits(all.take(n), *filters),
            failures.delta == counted_failures(all.take(n), *filters, start),
            rows_read(all.take(n), *filters, limit) == n,
        decreases reversed@.len(),
    {
        let ghost before = db::hit_texts(hits@);
        proof {
            assert(reversed@[reversed@.len() - 1] == all[n]);
            assert(all.take(n + 1).drop_last() == all.take(n));
            assert(all.take(n + 1).last() == all[n]);
            assert(before.len() == hits@.len());
        }
        match reversed.pop() {
            Some(row) => {
                match filter_row(row, filters, failures) {
                    Some(hit) => {
                        hits.push(hit);
                        proof {
                            assert(db::hit_texts(hits@) == before.push(db::hit_of(all[n])));
                        }
                    },
                    None => {},
                }
            },
            None => {},
        }
        proof {
            n = n + 1;
        }
    }
    proof {
        assert(db::hit_texts(hits@).len() == hits@.len());
        lemma_rows_read_stays(all, *filters, limit, n);
    }
    hits
}

proof fn lemma_rows_read_bounds(rows: Seq<CandidateRow>, filters: SearchFilters<'_>, limit: u32)
    ensures
        rows_read(rows, filters, limit) <= rows.len(),
        rows_read(rows, filters, limit) < rows.len() ==> enough(
            kept_hits(rows.take(rows_read(rows, filters, limit) as int), filters).len(),
            limit,
        ),
        kept_hits(rows.take(rows_read(rows, filters, limit) as int), filters).len() <= (
        if limit == 0 {
            1
        } else {
            limit as int
        }),
    decreases rows.len(),
{
    if rows.len() > 0 {
        let front = rows.drop_last();
        lemma_rows_read_bounds(front, filters, limit);
        let n = rows_read(rows, filters, limit) as int;
        if n < rows.len() {
            assert(rows.take(n) == front.take(n));
            assert(front.take(front.len() as int) == front);
        } else {
            assert(rows.take(n) == rows);
            assert(front.take(front.len() as int) == front);
        }
    }
}

proof fn lemma_kept_prefix(rows: Seq<CandidateRow>, filters: SearchFilters<'_>, n: int)
    requires
        0 <= n <= rows.len(),
    ensures
        kept_hits(rows.take(n), filters).is_prefix_of(kept_hits(rows, filters)),
    decreases rows.len(),
{
    if n < rows.len() {
        assert(rows.drop_last().take(n) == rows.take(n));
        lemma_kept_prefix(rows.drop_last(), filters, n);
    } else {
        assert(rows.take(n) == rows);
    }
}

/// The hits of a search are the first of all that the filters keep, in the
/// order of the index: all of them where they are fewer than wanted, otherwise
/// as many as wanted.
pub proof fn candidates_are_the_first_that_pass(
    rows: Seq<CandidateRow>,
    filters: SearchFilters<'_>,
    limit: u32,
)
    ensures
        ({
            let hits = kept_hits(rows.take(rows_read(rows, filters, limit) as int), filters);
            let all = kept_hits(rows, filters);
            let wanted = if limit == 0 {
                1
            } else {
                limit as int
            };
            &&& hits.len() == if all.len() < wanted {
                all.len() as int
            } else {
                wanted
            }
            &&& hits == all.take(hits.len() as int)
        }),
{
    let n = rows_read(rows, filters, limit) as int;
    lemma_rows_read_bounds(rows, filters, limit);
    lemma_kept_prefix(rows, filters, n);
    let hits = kept_hits(rows.take(n), filters);
    let all = kept_hits(rows, filters);
    assert(hits == all.take(hits.len() as int));
    if n == rows.len() {
        assert(rows.take(n) == rows);
    }
}

/// A hit is that of some row that the filters keep.
pub open spec fn comes_from(
    hit: (i64, ResultText),
    rows: Seq<CandidateRow>,
    filters: SearchFilters<'_>,
) -> bool {
    exists|m: int| 0 <= m < rows.len() && db::passes(#[trigger] rows[m], filters) && db::hit_of(rows[m]) == hit
}

proof fn lemma_kept_pass(rows: Seq<CandidateRow>, filters: SearchFilters<'_>, k: int)
    requires
        0 <= k < kept_hits(rows, filters).len(),
    ensures
        comes_from(kept_hits(rows, filters)[k], rows, filters),
    decreases rows.len(),
{
    let front = rows.drop_last();
    let hit = kept_hits(rows, filters)[k];
    if k < kept_hits(front, filters).len() {
        lemma_kept_pass(front, filters, k);
        let m = choose|m: int|
            0 <= m < front.len() && db::passes(#[trigger] front[m], filters) && db::hit_of(front[m]) == hit;
        assert(db::passes(rows[m], filters) && db::hit_of(rows[m]) == hit);
    } else {
        let m = rows.len() - 1;
        assert(db::passes(rows[m], filters) && db::hit_of(rows[m]) == hit);
    }
}

/// Every hit of a search comes from a row that the filters keep.
pub proof fn candidates_pass_the_filters(
    rows: Seq<CandidateRow>,
    filters: SearchFilters<'_>,
    limit: u32,
    k: int,
)
    requires
        0 <= k < kept_hits(rows.take(rows_read(rows, filters, limit) as int), filters).len(),
    ensures
        comes_from(
            kept_hits(rows.take(rows_read(rows, filters, limit) as int), filters)[k],
            rows,
            filters,
        ),
{
    lemma_rows_read_bounds(rows, filters, limit);
    let read = rows.take(rows_read(rows, filters, limit) as int);
    lemma_kept_pass(read, filters, k);
    let hit = kept_hits(read, filters)[k];
    let m = choose|m: int|
        0 <= m < read.len() && db::passes(#[trigger] read[m], filters) && db::hit_of(read[m]) == hit;
    assert(db::passes(rows[m], filters) && db::hit_of(rows[m]) == hit);
}

// ---------------------------------------------------------------------------
// Fusion
// ---------------------------------------------------------------------------

/// The places, counted from zero, at which `id` stands in `ids`.
pub open spec fn places(ids: Seq<i64>, id: i64) -> Seq<usize>
    decreases ids.len(),
{
    if ids.len() == 0 {
        Seq::empty()
    } else if ids.last() == id {
        places(ids.drop_last(), id).push((ids.len() - 1) as usize)
    } else {
        places(ids.drop_last(), id)
    }
}

/// The ids of a list, each once, in order of first occurrence.
pub open spec fn distinct_ids(ids: Seq<i64>) -> Seq<i64>
    decreases ids.len(),
{
    if ids.len() == 0 {
        ids
    } else {
        let d = distinct_ids(ids.drop_last());
        if d.contains(ids.last()) {
            d
        } else {
            d.push(ids.last())
        }
    }
}

/// One chunk with its ranks: those in the vector list, then those in the
/// full-text list, in the order in which their reciprocals are added up.
#[derive(Debug, Clone)]
pub struct RankEntry {
    pub id: i64,
    pub ranks: Vec<usize>,
}

/// The ranks of a chunk: those in the vector list, then those in the full-text list.
pub open spec fn ranks_of(vec_ids: Seq<i64>, fts_ids: Seq<i64>, id: i64) -> Seq<usize> {
    places(vec_ids, id) + places(fts_ids, id)
}

fn find_places(ids: &[i64], id: i64) -> (r: Vec<usize>)
    ensures
        r@ == places(ids@, id),
{
    let mut out: Vec<usize> = Vec::new();
    let mut i: usize = 0;
    while i < ids.len()
        invariant
            i <= ids@.len(),
            out@ == places(ids@.take(i as int), id),
        decreases ids@.len() - i,
    {
        proof {
            assert(ids@.take(i + 1).drop_last() == ids@.take(i as int));
        }
        if ids[i] == id {
            out.push(i);
        }
        i += 1;
    }
    proof {
        assert(ids@.take(ids@.len() as int) == ids@);
    }
    out
}

fn has_id(ids: &Vec<i64>, id: i64) -> (r: bool)
    ensures
        r == ids@.contains(id),
{
    let mut i: usize = 0;
    while i < ids.len()
        invariant
            i <= ids@.len(),
            forall|k: int| 0 <= k < i ==> ids@[k] != id,
        decreases ids@.len() - i,
    {
        if ids[i] == id {
            assert(ids@[i as int] == id);
            return true;
        }
        i += 1;
    }
    false
}

proof fn lemma_distinct_ids(ids: Seq<i64>)
    ensures
        distinct_ids(ids).no_duplicates(),
    decreases ids.len(),
{
    if ids.len() > 0 {
        lemma_distinct_ids(ids.drop_last());
    }
}

/// Gathers the ranks of every chunk that one of the two lists holds, each
/// chunk once.
pub fn rank_entries(vec_ids: &[i64], fts_ids: &[i64]) -> (r: Vec<RankEntry>)
    ensures
        r@.len() == distinct_ids(vec_ids@ + fts_ids@).len(),
        forall|k: int|
            0 <= k < r@.len() ==> {
                let e = #[trigger] r@[k];
                &&& e.id == distinct_ids(vec_ids@ + fts_ids@)[k]
                &&& e.ranks@ == places(vec_ids@, e.id) + places(fts_ids@, e.id)
                &&& e.ranks@ == ranks_of(vec_ids@, fts_ids@, e.id)
            },
        forall|i: int, j: int|
            0 <= i < j < r@.len() ==> (#[trigger] r@[i]).id != (#[trigger] r@[j]).id,
{
    let ghost all = vec_ids@ + fts_ids@;
    let mut ids: Vec<i64> = Vec::new();
    let mut i: usize = 0;
    while i < vec_ids.len()
        invariant
            all == vec_ids@ + fts_ids@,
            i <= vec_ids@.len(),
            ids@ == distinct_ids(all.take(i as int)),
        decreases vec_ids@.len() - i,
    {
        proof {
            assert(all.take(i + 1).drop_last() == all.take(i as int));
            assert(all.take(i + 1).last() == vec_ids@[i as int]);
        }
        if !has_id(&ids, vec_ids[i]) {
            ids.push(vec_ids[i]);
        }
        i += 1;
    }
    let mut j: usize = 0;
    while j < fts_ids.len()
        invariant
            all == vec_ids@ + fts_ids@,
            j <= fts_ids@.len(),
            ids@ == distinct_ids(all.take(vec_ids@.len() + j)),
        decreases fts_ids@.len() - j,
    {
        proof {
            assert(all.take(vec_ids@.len() + j + 1).drop_last() == all.take(vec_ids@.len() + j));
            assert(all.take(vec_ids@.len() + j + 1).last() == fts_ids@[j as int]);
        }
        if !has_id(&ids, fts_ids[j]) {
            ids.push(fts_ids[j]);
        }
        j += 1;
    }
    proof {
        assert(all.take(all.len() as int) == all);
    }
    let mut out: Vec<RankEntry> = Vec::new();
    let mut k: usize = 0;
    while k < ids.len()
        invariant
            ids@ == distinct_ids(vec_ids@ + fts_ids@),
            k <= ids@.len(),
            out@.len() == k,
            forall|m: int|
                0 <= m < k ==> {
                    let e = #[trigger] out@[m];
                    &&& e.id == ids@[m]
                    &&& e.ranks@ == places(vec_ids@, e.id) + places(fts_ids@, e.id)
                },
        decreases ids@.len() - k,
    {
        let mut ranks = find_places(vec_ids, ids[k]);
        let mut more = find_places(fts_ids, ids[k]);
        ranks.append(&mut more);
        out.push(RankEntry { id: ids[k], ranks });
        k += 1;
    }
    proof {
        lemma_distinct_ids(vec_ids@ + fts_ids@);
    }
    out
}

/// The order of fused hits: the higher score first, and among equal scores the
/// lower id.
pub open spec fn ranks_before(a: (i64, Float32), b: (i64, Float32)) -> bool {
    b.1.below(a.1) || (!a.1.below(b.1) && !b.1.below(a.1) && a.0 < b.0)
}

/// Scores that can be compared with each other: no NaN among numbers.
pub open spec fn comparable(scored: Seq<(i64, Float32)>) -> bool {
    ||| forall|i: int| 0 <= i < scored.len() ==> !(#[trigger] scored[i]).1.is_nan()
    ||| forall|i: int| 0 <= i < scored.len() ==> (#[trigger] scored[i]).1.is_nan()
}

/// No id twice.
pub open spec fn ids_differ(scored: Seq<(i64, Float32)>) -> bool {
    forall|i: int, j: int|
        0 <= i < j < scored.len() ==> (#[trigger] scored[i]).0 != (#[trigger] scored[j]).0
}

/// The scored chunks, best first.
pub open spec fn ranked(scored: Seq<(i64, Float32)>) -> Seq<(i64, Float32)> {
    sort::arranged(scored, |a: (i64, Float32), b: (i64, Float32)| ranks_before(a, b))
}

/// At most `limit` elements from the front; all where there is no limit.
pub open spec fn cut<A>(s: Seq<A>, limit: Option<u32>) -> Seq<A> {
    match limit {
        Some(n) => if n < s.len() {
            s.take(n as int)
        } else {
            s
        },
        None => s,
    }
}

fn comes_before(a: &(i64, Float32), b: &(i64, Float32)) -> (r: bool)
    ensures
        r == ranks_before(*a, *b),
{
    b.1.less(a.1) || (!a.1.less(b.1) && !b.1.less(a.1) && a.0 < b.0)
}

fn insert_ranked(sorted: &mut Vec<(i64, Float32)>, x: (i64, Float32))
    ensures
        final(sorted)@ == sort::inserted(
            old(sorted)@,
            x,
            |a: (i64, Float32), b: (i64, Float32)| ranks_before(a, b),
        ),
{
    let ghost less = |a: (i64, Float32), b: (i64, Float32)| ranks_before(a, b);
    let ghost before = sorted@;
    let mut at: usize = sorted.len();
    proof {
        assert(before.take(at as int) == before);
        assert(before.skip(at as int) == Seq::<(i64, Float32)>::empty());
        let whole = sort::inserted(before, x, less);
        assert(whole + Seq::<(i64, Float32)>::empty() == whole);
    }
    while at > 0 && comes_before(&x, &sorted[at - 1])
        invariant
            less == (|a: (i64, Float32), b: (i64, Float32)| ranks_before(a, b)),
            sorted@ == before,
            at <= before.len(),
            sort::inserted(before, x, less) == sort::inserted(before.take(at as int), x, less)
                + before.skip(at as int),
        ensures
            at <= before.len(),
            sort::inserted(before, x, less) == before.take(at as int).push(x) + before.skip(
                at as int,
            ),
        decreases at,
    {
        proof {
            let t = before.take(at as int);
            assert(t.last() == before[at - 1]);
            assert(t.drop_last() == before.take(at - 1));
            let inner = sort::inserted(before.take(at - 1), x, less);
            assert(inner.push(before[at - 1]) + before.skip(at as int) == inner + before.skip(
                at - 1,
            ));
        }
        at -= 1;
    }
    sorted.insert(at, x);
    proof {
        assert(before.insert(at as int, x) == before.take(at as int).push(x) + before.skip(
            at as int,
        ));
    }
}

/// Orders the scored chunks, the best first and equal scores by id, and cuts
/// the list where there is a limit. The order of the input plays no part.
fn order_scored(scored: &Vec<(i64, Float32)>, limit: Option<u32>) -> (r: Vec<(i64, Float32)>)
    requires
        ids_differ(scored@),
        comparable(scored@),
    ensures
        r@ == cut(ranked(scored@), limit),
{
    let ghost less = |a: (i64, Float32), b: (i64, Float32)| ranks_before(a, b);
    let mut out: Vec<(i64, Float32)> = Vec::new();
    let mut i: usize = 0;
    while i < scored.len()
        invariant
            less == (|a: (i64, Float32), b: (i64, Float32)| ranks_before(a, b)),
            i <= scored@.len(),
            out@ == sort::arranged(scored@.take(i as int), less),
        decreases scored@.len() - i,
    {
        proof {
            assert(scored@.take(i + 1).drop_last() == scored@.take(i as int));
            assert(scored@.take(i + 1).last() == scored@[i as int]);
        }
        insert_ranked(&mut out, scored[i]);
        i += 1;
    }
    proof {
        assert(scored@.take(scored@.len() as int) == scored@);
        sort::arranging_keeps_the_elements(scored@, less);
    }
    if let Some(n) = limit {
        if (n as usize) < out.len() {
            out.truncate(n as usize);
        }
    }
    out
}

proof fn lemma_ranking_orders(scored: Seq<(i64, Float32)>)
    requires
        ids_differ(scored),
        comparable(scored),
    ensures
        sort::orders(scored, |a: (i64, Float32), b: (i64, Float32)| ranks_before(a, b)),
{
    let less = |a: (i64, Float32), b: (i64, Float32)| ranks_before(a, b);
    assert forall|a: (i64, Float32), b: (i64, Float32)| #[trigger]
        scored.contains(a) && #[trigger] scored.contains(b) implies !(less(a, b) && less(b, a)) && (
    less(a, b) || less(b, a) || a == b) by {
        let i = choose|i: int| 0 <= i < scored.len() && scored[i] == a;
        let j = choose|j: int| 0 <= j < scored.len() && scored[j] == b;
        assert(i == j || scored[i].0 != scored[j].0);
    }
    assert forall|a: (i64, Float32), b: (i64, Float32), c: (i64, Float32)|
        #![trigger scored.contains(a), scored.contains(b), scored.contains(c)]
        scored.contains(a) && scored.contains(b) && scored.contains(c) && less(a, b) && less(
            b,
            c,
        ) implies less(a, c) by {
        let i = choose|i: int| 0 <= i < scored.len() && scored[i] == a;
        let j = choose|j: int| 0 <= j < scored.len() && scored[j] == b;
        let k = choose|k: int| 0 <= k < scored.len() && scored[k] == c;
        assert(a.1.is_nan() == b.1.is_nan() && b.1.is_nan() == c.1.is_nan());
    }
}

/// Fusion is a total order: each chunk is there once, the score never rises
/// from one hit to the next, and among equal scores the id does. Nothing but
/// the scores decides, so two lists with the same scores, in whatever order,
/// are fused alike.
pub proof fn fusion_is_deterministic(scored: Seq<(i64, Float32)>, other: Seq<(i64, Float32)>)
    requires
        ids_differ(scored),
        comparable(scored),
        scored.to_multiset() == other.to_multiset(),
    ensures
        ranked(scored) == ranked(other),
        ranked(scored).to_multiset() == scored.to_multiset(),
        sort::in_order(
            ranked(scored),
            |a: (i64, Float32), b: (i64, Float32)| ranks_before(a, b),
        ),
{
    let less = |a: (i64, Float32), b: (i64, Float32)| ranks_before(a, b);
    lemma_ranking_orders(scored);
    sort::arranging_forgets_the_order(scored, other, less);
    sort::arranging_keeps_the_elements(scored, less);
    sort::arranging_puts_in_order(scored, less);
}

/// Scores that can be compared with each other: no NaN among numbers.
pub open spec fn comparable_scores(scores: Seq<Float32>) -> bool {
    ||| forall|i: int| 0 <= i < scores.len() ==> !(#[trigger] scores[i]).is_nan()
    ||| forall|i: int| 0 <= i < scores.len() ==> (#[trigger] scores[i]).is_nan()
}

/// The chunks that one of the two lists holds, each once, with their scores in the
/// same order.
pub open spec fn scored_ids(vec_ids: Seq<i64>, fts_ids: Seq<i64>, scores: Seq<Float32>) -> Seq<
    (i64, Float32),
> {
    let ids = distinct_ids(vec_ids + fts_ids);
    Seq::new(ids.len(), |i: int| (ids[i], scores[i]))
}

/// Chunks that occur once, with comparable scores, can be put in order.
proof fn lemma_scored_ids(vec_ids: Seq<i64>, fts_ids: Seq<i64>, scores: Seq<Float32>)
    requires
        scores.len() == distinct_ids(vec_ids + fts_ids).len(),
        comparable_scores(scores),
    ensures
        ids_differ(scored_ids(vec_ids, fts_ids, scores)),
        comparable(scored_ids(vec_ids, fts_ids, scores)),
{
    let ids = distinct_ids(vec_ids + fts_ids);
    let scored = scored_ids(vec_ids, fts_ids, scores);
    lemma_distinct_ids(vec_ids + fts_ids);
    assert forall|i: int, j: int| 0 <= i < j < scored.len() implies (#[trigger] scored[i]).0 != (
    #[trigger] scored[j]).0 by {
        assert(ids[i] != ids[j]);
    }
    if forall|i: int| 0 <= i < scores.len() ==> !(#[trigger] scores[i]).is_nan() {
        assert forall|i: int| 0 <= i < scored.len() implies !(#[trigger] scored[i]).1.is_nan() by {
            assert(!scores[i].is_nan());
        }
    } else {
        assert forall|i: int| 0 <= i < scored.len() implies (#[trigger] scored[i]).1.is_nan() by {
            assert(scores[i].is_nan());
        }
    }
}

/// Fuses two rankings: every chunk that one of them holds, the best first and equal
/// scores by id, no more than the limit. `scores` holds the scores of the chunks in
/// the order of `rank_entries`.
pub fn fuse_rrf_ids(
    vec_ids: &[i64],
    fts_ids: &[i64],
    scores: &Vec<Float32>,
    limit: Option<u32>,
) -> (r: Vec<(i64, Float32)>)
    requires
        scores@.len() == distinct_ids(vec_ids@ + fts_ids@).len(),
        comparable_scores(scores@),
    ensures
        r@ == cut(ranked(scored_ids(vec_ids@, fts_ids@, scores@)), limit),
{
    let entries = rank_entries(vec_ids, fts_ids);
    let ghost all = scored_ids(vec_ids@, fts_ids@, scores@);
    let mut scored: Vec<(i64, Float32)> = Vec::new();
    let mut i: usize = 0;
    while i < entries.len()
        invariant
            i <= entries@.len(),
            entries@.len() == all.len() == scores@.len(),
            scored@ == all.take(i as int),
            forall|k: int| 0 <= k < entries@.len() ==> (#[trigger] entries@[k]).id == all[k].0,
            forall|k: int| 0 <= k < all.len() ==> (#[trigger] all[k]).1 == scores@[k],
        decreases entries@.len() - i,
    {
        scored.push((entries[i].id, scores[i]));
        assert(scored@ =~= all.take(i + 1));
        i += 1;
    }
    proof {
        assert(scored@ =~= all);
        lemma_scored_ids(vec_ids@, fts_ids@, scores@);
    }
    order_scored(&scored, limit)
}

/// The first hit of a list with the given id.
pub open spec fn row_of(hits: Seq<(i64, ResultText)>, id: i64) -> Option<ResultText>
    decreases hits.len(),
{
    if hits.len() == 0 {
        None
    } else if hits[0].0 == id {
        Some(hits[0].1)
    } else {
        row_of(hits.skip(1), id)
    }
}

/// The ranked chunks with their rows, each row with the fused score. A chunk
/// without a row is left out.
pub open spec fn with_rows(order: Seq<(i64, Float32)>, hits: Seq<(i64, ResultText)>) -> Seq<
    (i64, ResultText),
>
    decreases order.len(),
{
    if order.len() == 0 {
        Seq::empty()
    } else {
        let front = with_rows(order.drop_last(), hits);
        let (id, score) = order.last();
        match row_of(hits, id) {
            Some(row) => front.push((id, ResultText { score, ..row })),
            None => front,
        }
    }
}

fn find_row(hits: &Vec<(i64, SearchResult)>, id: i64) -> (r: Option<usize>)
    ensures
        match r {
            Some(i) => i < hits@.len() && row_of(db::hit_texts(hits@), id) == Some(hits@[i as int].1@),
            None => row_of(db::hit_texts(hits@), id) is None,
        },
{
    let ghost all = db::hit_texts(hits@);
    let mut i: usize = 0;
    proof {
        assert(all.skip(0) == all);
    }
    while i < hits.len()
        invariant
            all == db::hit_texts(hits@),
            i <= hits@.len(),
            row_of(all, id) == row_of(all.skip(i as int), id),
        decreases hits@.len() - i,
    {
        proof {
            assert(all.skip(i as int)[0] == (hits@[i as int].0, hits@[i as int].1@));
            assert(all.skip(i as int).skip(1) == all.skip(i + 1));
        }
        if hits[i].0 == id {
            return Some(i);
        }
        i += 1;
    }
    None
}

proof fn lemma_row_of_append(a: Seq<(i64, ResultText)>, b: Seq<(i64, ResultText)>, id: i64)
    ensures
        row_of(a + b, id) == (match row_of(a, id) {
            Some(r) => Some(r),
            None => row_of(b, id),
        }),
    decreases a.len(),
{
    if a.len() == 0 {
        assert(a + b == b);
    } else {
        assert((a + b).skip(1) == a.skip(1) + b);
        assert((a + b)[0] == a[0]);
        lemma_row_of_append(a.skip(1), b, id);
    }
}

/// Gives the ranked chunks their rows. A chunk that both lists hold takes the row of
/// the vector list.
fn attach_rows(
    vec_hits: &Vec<(i64, SearchResult)>,
    fts_hits: &Vec<(i64, SearchResult)>,
    order: &Vec<(i64, Float32)>,
) -> (r: Vec<(i64, SearchResult)>)
    ensures
        db::hit_texts(r@) == with_rows(order@, db::hit_texts(vec_hits@) + db::hit_texts(fts_hits@)),
{
    let ghost hits = db::hit_texts(vec_hits@) + db::hit_texts(fts_hits@);
    let mut out: Vec<(i64, SearchResult)> = Vec::new();
    let mut i: usize = 0;
    proof {
        assert(db::hit_texts(out@) == Seq::<(i64, ResultText)>::empty());
    }
    while i < order.len()
        invariant
            hits == db::hit_texts(vec_hits@) + db::hit_texts(fts_hits@),
            i <= order@.len(),
            db::hit_texts(out@) == with_rows(order@.take(i as int), hits),
        decreases order@.len() - i,
    {
        let (id, score) = order[i];
        let ghost before = db::hit_texts(out@);
        proof {
            assert(order@.take(i + 1).drop_last() == order@.take(i as int));
            assert(order@.take(i + 1).last() == order@[i as int]);
            lemma_row_of_append(db::hit_texts(vec_hits@), db::hit_texts(fts_hits@), id);
        }
        match find_row(vec_hits, id) {
            Some(k) => {
                out.push((id, vec_hits[k].1.with_score(score)));
                proof {
                    assert(db::hit_texts(out@) == before.push(
                        (id, ResultText { score, ..vec_hits@[k as int].1@ }),
                    ));
                }
            },
            None => match find_row(fts_hits, id) {
                Some(k) => {
                    out.push((id, fts_hits[k].1.with_score(score)));
                    proof {
                        assert(db::hit_texts(out@) == before.push(
                            (id, ResultText { score, ..fts_hits@[k as int].1@ }),
                        ));
                    }
                },
                None => {},
            },
        }
        i += 1;
    }
    proof {
        assert(order@.take(order@.len() as int) == order@);
    }
    out
}

/// The ids of hits.
pub open spec fn hit_ids(hits: Seq<(i64, ResultText)>) -> Seq<i64> {
    Seq::new(hits.len(), |i: int| hits[i].0)
}

fn ids_of(hits: &Vec<(i64, SearchResult)>) -> (r: Vec<i64>)
    ensures
        r@ == hit_ids(db::hit_texts(hits@)),
{
    let mut out: Vec<i64> = Vec::new();
    let mut i: usize = 0;
    while i < hits.len()
        invariant
            i <= hits@.len(),
            out@ == hit_ids(db::hit_texts(hits@)).take(i as int),
        decreases hits@.len() - i,
    {
        out.push(hits[i].0);
        assert(out@ =~= hit_ids(db::hit_texts(hits@)).take(i + 1));
        i += 1;
    }
    assert(out@ =~= hit_ids(db::hit_texts(hits@)));
    out
}

/// The order of the fused hits, with their scores.
pub open spec fn fused_order(
    vec_hits: Seq<(i64, ResultText)>,
    fts_hits: Seq<(i64, ResultText)>,
    scores: Seq<Float32>,
    limit: Option<u32>,
) -> Seq<(i64, Float32)> {
    cut(ranked(scored_ids(hit_ids(vec_hits), hit_ids(fts_hits), scores)), limit)
}

/// The fused hits: the chunks of both lists, the best first and equal scores by id,
/// no more than the limit, each with its fused score and, where both lists hold it,
/// the row of the vector list. `scores` holds the scores of the chunks in the order
/// of `rank_entries`.
pub fn fuse_rrf(
    vec_hits: &Vec<(i64, SearchResult)>,
    fts_hits: &Vec<(i64, SearchResult)>,
    scores: &Vec<Float32>,
    limit: Option<u32>,
) -> (r: Vec<(i64, SearchResult)>)
    requires
        scores@.len() == distinct_ids(
            hit_ids(db::hit_texts(vec_hits@)) + hit_ids(db::hit_texts(fts_hits@)),
        ).len(),
        comparable_scores(scores@),
    ensures
        db::hit_texts(r@) == with_rows(
            fused_order(db::hit_texts(vec_hits@), db::hit_texts(fts_hits@), scores@, limit),
            db::hit_texts(vec_hits@) + db::hit_texts(fts_hits@),
        ),
{
    let vec_ids = ids_of(vec_hits);
    let fts_ids = ids_of(fts_hits);
    let order = fuse_rrf_ids(vec_ids.as_slice(), fts_ids.as_slice(), scores, limit);
    attach_rows(vec_hits, fts_hits, &order)
}

proof fn lemma_row_of_id(hits: Seq<(i64, ResultText)>, i: int)
    requires
        0 <= i < hits.len(),
    ensures
        row_of(hits, hits[i].0) is Some,
    decreases hits.len(),
{
    if hits[0].0 != hits[i].0 {
        assert(hits.skip(1)[i - 1] == hits[i]);
        lemma_row_of_id(hits.skip(1), i - 1);
    }
}

proof fn lemma_distinct_from(ids: Seq<i64>, k: int)
    requires
        0 <= k < distinct_ids(ids).len(),
    ensures
        ids.contains(distinct_ids(ids)[k]),
    decreases ids.len(),
{
    if ids.len() > 0 {
        let front = distinct_ids(ids.drop_last());
        if k < front.len() {
            lemma_distinct_from(ids.drop_last(), k);
            let j = choose|j: int|
                0 <= j < ids.drop_last().len() && ids.drop_last()[j] == front[k];
            assert(ids[j] == front[k]);
        } else {
            assert(ids[ids.len() - 1] == distinct_ids(ids)[k]);
        }
    }
}

proof fn lemma_rows_for_all(order: Seq<(i64, Float32)>, hits: Seq<(i64, ResultText)>)
    requires
        forall|i: int| 0 <= i < order.len() ==> row_of(hits, (#[trigger] order[i]).0) is Some,
    ensures
        with_rows(order, hits).len() == order.len(),
        forall|i: int|
            0 <= i < order.len() ==> {
                let h = #[trigger] with_rows(order, hits)[i];
                h.0 == order[i].0 && h.1.score == order[i].1 && h.1 == (ResultText {
                    score: order[i].1,
                    ..row_of(hits, order[i].0)->0
                })
            },
    decreases order.len(),
{
    if order.len() > 0 {
        let front = order.drop_last();
        assert forall|i: int| 0 <= i < front.len() implies row_of(
            hits,
            (#[trigger] front[i]).0,
        ) is Some by {
            assert(front[i] == order[i]);
        }
        lemma_rows_for_all(front, hits);
        assert(order.last() == order[order.len() - 1]);
        assert forall|i: int| 0 <= i < order.len() implies {
            let h = #[trigger] with_rows(order, hits)[i];
            h.0 == order[i].0 && h.1.score == order[i].1 && h.1 == (ResultText {
                score: order[i].1,
                ..row_of(hits, order[i].0)->0
            })
        } by {
            if i < front.len() {
                assert(with_rows(order, hits)[i] == with_rows(front, hits)[i]);
                assert(front[i] == order[i]);
            }
        }
    }
}

/// No chunk is lost in fusion: without a limit every chunk that one of the lists
/// holds comes out, each once and in order; with a limit the best ones do. Each has
/// its fused score and otherwise the row under which it was first found.
pub proof fn fusion_keeps_every_chunk(
    vec_hits: Seq<(i64, ResultText)>,
    fts_hits: Seq<(i64, ResultText)>,
    scores: Seq<Float32>,
    limit: Option<u32>,
)
    requires
        scores.len() == distinct_ids(hit_ids(vec_hits) + hit_ids(fts_hits)).len(),
        comparable_scores(scores),
    ensures
        ({
            let order = fused_order(vec_hits, fts_hits, scores, limit);
            let fused = with_rows(order, vec_hits + fts_hits);
            &&& ids_differ(order)
            &&& sort::in_order(
                order,
                |a: (i64, Float32), b: (i64, Float32)| ranks_before(a, b),
            )
            &&& fused.len() == order.len()
            &&& fused.len() == (if limit is Some && limit->0 < scores.len() {
                limit->0 as nat
            } else {
                scores.len()
            })
            &&& forall|i: int|
                0 <= i < fused.len() ==> {
                    let h = #[trigger] fused[i];
                    h.0 == order[i].0 && row_of(vec_hits + fts_hits, h.0) is Some && h.1 == (
                    ResultText { score: order[i].1, ..row_of(vec_hits + fts_hits, h.0)->0 })
                }
        }),
{
    let vec_ids = hit_ids(vec_hits);
    let fts_ids = hit_ids(fts_hits);
    let hits = vec_hits + fts_hits;
    let scored = scored_ids(vec_ids, fts_ids, scores);
    let less = |a: (i64, Float32), b: (i64, Float32)| ranks_before(a, b);
    lemma_scored_ids(vec_ids, fts_ids, scores);
    fusion_is_deterministic(scored, scored);
    sort::arranging_keeps_the_elements(scored, less);
    let order = fused_order(vec_hits, fts_hits, scores, limit);
    assert(vec_ids + fts_ids =~= hit_ids(hits));
    assert forall|i: int| 0 <= i < order.len() implies scored.contains(#[trigger] order[i]) by {
        broadcast use vstd::seq_lib::group_to_multiset_ensures;

        assert(order[i] == ranked(scored)[i]);
        assert(ranked(scored).contains(ranked(scored)[i]));
        assert(ranked(scored).to_multiset().count(ranked(scored)[i]) > 0);
    }
    assert(scored.no_duplicates()) by {
        assert forall|i: int, j: int| 0 <= i < scored.len() && 0 <= j < scored.len() && i
            != j implies scored[i] != scored[j] by {
            assert(scored[i].0 != scored[j].0);
        }
    }
    scored.lemma_multiset_has_no_duplicates();
    ranked(scored).lemma_multiset_has_no_duplicates_conv();
    assert forall|i: int, j: int| 0 <= i < j < order.len() implies !less(
        #[trigger] order[j],
        #[trigger] order[i],
    ) && order[i].0 != order[j].0 by {
        assert(order[i] == ranked(scored)[i] && order[j] == ranked(scored)[j]);
        let k = choose|k: int| 0 <= k < scored.len() && scored[k] == order[i];
        let m = choose|m: int| 0 <= m < scored.len() && scored[m] == order[j];
        assert(k == m || scored[k].0 != scored[m].0);
    }
    assert forall|i: int| 0 <= i < order.len() implies row_of(
        hits,
        (#[trigger] order[i]).0,
    ) is Some by {
        assert(order[i] == ranked(scored)[i]);
        let k = choose|k: int| 0 <= k < scored.len() && scored[k] == ranked(scored)[i];
        lemma_distinct_from(vec_ids + fts_ids, k);
        let m = choose|m: int|
            0 <= m < (vec_ids + fts_ids).len() && (vec_ids + fts_ids)[m] == distinct_ids(
                vec_ids + fts_ids,
            )[k];
        assert(hits[m].0 == order[i].0);
        lemma_row_of_id(hits, m);
    }
    lemma_rows_for_all(order, hits);
}

} // verus!
