//! What the index hands out and which of it a search keeps: rows, hits,
//! filters, and the numbers and texts that statements are made of.

use crate::float::Float32;
use crate::tags;
use crate::tags::TagFailures;
use crate::text;
use crate::text::{contains_text, same_text, text_precedes};
use vstd::prelude::*;

verus! {

/// How many times the wanted number of candidates is fetched where a filter
/// drops some of them afterwards.
pub const FILTER_OVERFETCH_FACTOR: u32 = 10;

/// The most candidates that are fetched for a filter's sake.
pub const FILTER_OVERFETCH_CAP: u32 = 10_000;

/// The most neighbours that one nearest-neighbour query may ask for.
pub const VEC_KNN_MAX_K: u32 = 4096;

/// How many embeddings one statement fetches.
pub const EMBEDDING_FETCH_BATCH: usize = 500;

/// How two rankings are fused: the constant of the reciprocal ranks, and the
/// weight of each full-text column.
#[derive(Debug, Clone, Copy, PartialEq, Eq, Structural)]
pub struct FusionParams {
    pub rrf_k: Float32,
    pub bm25_heading_weight: Float32,
    pub bm25_context_weight: Float32,
    pub bm25_content_weight: Float32,
}

impl FusionParams {
    /// 60, and the weights 2, 1 and 1.
    pub open spec fn builtin() -> FusionParams {
        FusionParams {
            rrf_k: Float32::sixty(),
            bm25_heading_weight: Float32::two(),
            bm25_context_weight: Float32::one(),
            bm25_content_weight: Float32::one(),
        }
    }
}

impl Default for FusionParams {
    fn default() -> (r: Self)
        ensures
            r == FusionParams::builtin(),
    {
        FusionParams {
            rrf_k: Float32::from_bits(0x4270_0000),
            bm25_heading_weight: Float32::from_bits(0x4000_0000),
            bm25_context_weight: Float32::from_bits(0x3f80_0000),
            bm25_content_weight: Float32::from_bits(0x3f80_0000),
        }
    }
}

/// One hit with the row it came from.
#[derive(Debug, Clone)]
pub struct SearchResult {
    pub score: Float32,
    pub content: String,
    pub heading: Option<String>,
    pub document_id: i64,
    pub path: String,
    pub title: Option<String>,
    pub topic: Option<String>,
    pub date: Option<String>,
    pub tags: Vec<String>,
    pub context_text: Option<String>,
}

/// A hit as characters.
pub struct ResultText {
    pub score: Float32,
    pub content: Seq<char>,
    pub heading: Option<Seq<char>>,
    pub document_id: i64,
    pub path: Seq<char>,
    pub title: Option<Seq<char>>,
    pub topic: Option<Seq<char>>,
    pub date: Option<Seq<char>>,
    pub tags: Seq<Seq<char>>,
    pub context_text: Option<Seq<char>>,
}

impl View for SearchResult {
    type V = ResultText;

    open spec fn view(&self) -> ResultText {
        ResultText {
            score: self.score,
            content: self.content@,
            heading: text::option_text(self.heading),
            document_id: self.document_id,
            path: self.path@,
            title: text::option_text(self.title),
            topic: text::option_text(self.topic),
            date: text::option_text(self.date),
            tags: text::texts(self.tags@),
            context_text: text::option_text(self.context_text),
        }
    }
}

impl SearchResult {
    /// The same hit with another score.
    pub fn with_score(&self, score: Float32) -> (r: SearchResult)
        ensures
            r@ == (ResultText { score, ..self@ }),
    {
        let r = SearchResult {
            score,
            content: self.content.clone(),
            heading: text::copy_option(&self.heading),
            document_id: self.document_id,
            path: self.path.clone(),
            title: text::copy_option(&self.title),
            topic: text::copy_option(&self.topic),
            date: text::copy_option(&self.date),
            tags: text::copy_texts(&self.tags),
            context_text: text::copy_option(&self.context_text),
        };
        assert(r@.tags == self@.tags);
        r
    }
}

/// A range of bytes of a hit's content, from `start` to before `end`.
#[derive(Debug, Clone, Copy, PartialEq, Eq, Structural)]
pub struct MatchSpan {
    pub start: usize,
    pub end: usize,
}

/// From how much of its document a hit's content was widened.
#[derive(Debug, Clone, Copy, PartialEq, Eq, Structural)]
pub enum ExpandedRange {
    Adjacent { from_index: usize, to_index: usize },
    WholeDocument { total_chunks: usize },
}

/// What a caller sees of a hit.
#[derive(Debug, Clone)]
pub struct SearchHit {
    pub score: Float32,
    pub path: String,
    pub title: Option<String>,
    pub heading: Option<String>,
    pub topic: Option<String>,
    pub date: Option<String>,
    pub tags: Vec<String>,
    pub content: String,
    pub match_spans: Option<Vec<MatchSpan>>,
    pub expanded_from: Option<ExpandedRange>,
}

impl From<SearchResult> for SearchHit {
    fn from(r: SearchResult) -> (hit: Self) {
        SearchHit {
            score: r.score,
            path: r.path,
            title: r.title,
            heading: r.heading,
            topic: r.topic,
            date: r.date,
            tags: r.tags,
            content: r.content,
            match_spans: None,
            expanded_from: None,
        }
    }
}

impl vstd::std_specs::convert::FromSpecImpl<SearchResult> for SearchHit {
    open spec fn obeys_from_spec() -> bool {
        true
    }

    /// Everything but the document and the context is handed on; spans and
    /// widening are not yet computed.
    open spec fn from_spec(r: SearchResult) -> SearchHit {
        SearchHit {
            score: r.score,
            path: r.path,
            title: r.title,
            heading: r.heading,
            topic: r.topic,
            date: r.date,
            tags: r.tags,
            content: r.content,
            match_spans: None,
            expanded_from: None,
        }
    }
}

/// A chunk as it is read for widening a hit.
#[derive(Debug, Clone)]
pub struct ChunkRow {
    pub chunk_index: i64,
    pub content: String,
    pub token_count: Option<i64>,
    pub level: Option<u8>,
}

impl ChunkRow {
    /// A chunk from its columns. Of the level the lowest eight bits are kept.
    pub fn from_columns(
        chunk_index: i64,
        content: String,
        token_count: Option<i64>,
        level: Option<i64>,
    ) -> (r: Self)
        ensures
            r.chunk_index == chunk_index,
            r.content == content,
            r.token_count == token_count,
            match (r.level, level) {
                (Some(a), Some(b)) => a as int == b as int % 256,
                (None, None) => true,
                _ => false,
            },
    {
        let kept = match level {
            Some(v) => {
                assert(v as u8 == v % 256) by (bit_vector);
                Some(#[verifier::truncate] (v as u8))
            },
            None => None,
        };
        ChunkRow { chunk_index, content, token_count, level: kept }
    }
}

/// Whether the index was built with context in front of each chunk.
#[derive(Debug, Clone, Copy, PartialEq, Eq, Structural)]
pub enum ContextMode {
    Off,
    Static,
}

impl ContextMode {
    /// The name under which a mode is stored.
    pub open spec fn name(self) -> Seq<char> {
        match self {
            ContextMode::Off => "off"@,
            ContextMode::Static => "static"@,
        }
    }

    /// The mode that a stored name stands for.
    pub open spec fn named(s: Seq<char>) -> Option<ContextMode> {
        if s == "off"@ {
            Some(ContextMode::Off)
        } else if s == "static"@ {
            Some(ContextMode::Static)
        } else {
            None
        }
    }

    pub fn as_str(self) -> (r: &'static str)
        ensures
            r@ == self.name(),
    {
        match self {
            ContextMode::Off => "off",
            ContextMode::Static => "static",
        }
    }

    pub fn from_str_opt(s: &str) -> (r: Option<Self>)
        ensures
            r == ContextMode::named(s@),
    {
        if same_text(s, "off") {
            Some(ContextMode::Off)
        } else if same_text(s, "static") {
            Some(ContextMode::Static)
        } else {
            None
        }
    }
}

/// A mode is read back from the name it was stored under.
pub proof fn context_mode_round_trip(mode: ContextMode)
    ensures
        ContextMode::named(mode.name()) == Some(mode),
{
    reveal_strlit("off");
    reveal_strlit("static");
    assert("off"@.len() == 3);
    assert("static"@.len() == 6);
}

/// The mode that the index has stored: `None` where there is no entry, or none
/// that names a mode.
pub fn stored_context_mode(raw: Option<&str>) -> (r: Option<ContextMode>)
    ensures
        r == (match raw {
            Some(s) => ContextMode::named(s@),
            None => None,
        }),
{
    match raw {
        Some(s) => ContextMode::from_str_opt(s),
        None => None,
    }
}

/// Documents that share a category and a topic.
#[derive(Debug, Clone)]
pub struct TopicInfo {
    pub category: Option<String>,
    pub topic: Option<String>,
    pub file_count: u32,
    pub last_updated: Option<String>,
    pub titles: Vec<String>,
}

impl TopicInfo {
    /// A topic, out of the columns of its row: the titles come as one JSON
    /// text.
    pub fn from_row(
        category: Option<String>,
        topic: Option<String>,
        file_count: u32,
        last_updated: Option<String>,
        titles_json: Option<&str>,
    ) -> (r: TopicInfo)
        ensures
            r.category == category,
            r.topic == topic,
            r.file_count == file_count,
            r.last_updated == last_updated,
            text::texts(r.titles@) == tags::titles_in(match titles_json {
                Some(s) => Some(s@),
                None => None,
            }),
    {
        TopicInfo { category, topic, file_count, last_updated, titles: tags::titles_of(titles_json) }
    }
}

// ---------------------------------------------------------------------------
// Filters
// ---------------------------------------------------------------------------

/// A compiled set of globs.
#[verifier::external_type_specification]
#[verifier::external_body]
pub struct ExGlobSet(globset::GlobSet);

/// The paths that some glob of the set matches.
pub uninterp spec fn matched_paths(set: globset::GlobSet) -> Set<Seq<char>>;

/// `GlobSet::is_match`: whether some glob of the set matches the path, with the
/// separators of the platform that the set was compiled on.
#[verifier::external_body]
fn glob_set_matches(set: &globset::GlobSet, path: &str) -> (r: bool)
    ensures
        r == matched_paths(*set).contains(path@),
{
    set.is_match(path)
}

/// Which paths a search wants and which it does not.
#[derive(Debug, Clone)]
pub struct CompiledPathGlobs {
    pub included: Option<globset::GlobSet>,
    pub excluded: Option<globset::GlobSet>,
}

/// Whether a path passes, given what the two sets say of it. A set that is
/// missing lets every path in and keeps none out.
pub open spec fn passes_globs(included: Option<bool>, excluded: Option<bool>) -> bool {
    included != Some(false) && excluded != Some(true)
}

/// Whether a path passes, given what the two sets say of it.
pub fn path_passes(included: Option<bool>, excluded: Option<bool>) -> (r: bool)
    ensures
        r == passes_globs(included, excluded),
{
    let is_in = match included {
        Some(b) => b,
        None => true,
    };
    let is_out = match excluded {
        Some(b) => b,
        None => false,
    };
    is_in && !is_out
}

impl CompiledPathGlobs {
    /// Whether the globs let a path through.
    pub open spec fn admits(self, path: Seq<char>) -> bool {
        passes_globs(
            match self.included {
                Some(set) => Some(matched_paths(set).contains(path)),
                None => None,
            },
            match self.excluded {
                Some(set) => Some(matched_paths(set).contains(path)),
                None => None,
            },
        )
    }

    pub fn matches(&self, path: &str) -> (r: bool)
        ensures
            r == self.admits(path@),
    {
        let included = match &self.included {
            Some(set) => Some(glob_set_matches(set, path)),
            None => None,
        };
        let excluded = match &self.excluded {
            Some(set) => Some(glob_set_matches(set, path)),
            None => None,
        };
        path_passes(included, excluded)
    }
}

/// What a search asks of its hits. Whatever is missing, empty or zero asks
/// nothing.
#[derive(Debug, Clone)]
pub struct SearchFilters<'a> {
    pub category: Option<&'a str>,
    pub topic: Option<&'a str>,
    pub min_quality: Float32,
    pub path_globs: Option<&'a CompiledPathGlobs>,
    pub tags_any: &'a [String],
    pub tags_all: &'a [String],
    pub date_from: Option<&'a str>,
    pub date_to: Option<&'a str>,
}

impl<'a> SearchFilters<'a> {
    /// Whether anything is asked at all.
    pub open spec fn asks(&self) -> bool {
        ||| self.category is Some
        ||| self.topic is Some
        ||| Float32::zero().below(self.min_quality)
        ||| self.path_globs is Some
        ||| self.tags_any@.len() > 0
        ||| self.tags_all@.len() > 0
        ||| self.date_from is Some
        ||| self.date_to is Some
    }

    pub fn has_any(&self) -> (r: bool)
        ensures
            r == self.asks(),
    {
        self.category.is_some() || self.topic.is_some() || Float32::from_bits(0).less(
            self.min_quality,
        ) || self.path_globs.is_some() || self.tags_any.len() > 0 || self.tags_all.len() > 0
            || self.date_from.is_some() || self.date_to.is_some()
    }
}

impl<'a> Default for SearchFilters<'a> {
    /// The filters that ask nothing.
    fn default() -> (r: Self)
        ensures
            r.category is None,
            r.topic is None,
            r.min_quality == Float32::zero(),
            r.path_globs is None,
            r.tags_any@.len() == 0,
            r.tags_all@.len() == 0,
            r.date_from is None,
            r.date_to is None,
            !r.asks(),
    {
        SearchFilters {
            category: None,
            topic: None,
            min_quality: Float32::from_bits(0),
            path_globs: None,
            tags_any: &[],
            tags_all: &[],
            date_from: None,
            date_to: None,
        }
    }
}

/// Some tag of the pool is among the tags; an empty pool asks nothing.
pub open spec fn any_tag(tags: Seq<Seq<char>>, pool: Seq<Seq<char>>) -> bool {
    pool.len() == 0 || exists|i: int| 0 <= i < pool.len() && tags.contains(#[trigger] pool[i])
}

/// Every tag of the pool is among the tags.
pub open spec fn all_tags(tags: Seq<Seq<char>>, pool: Seq<Seq<char>>) -> bool {
    forall|i: int| 0 <= i < pool.len() ==> tags.contains(#[trigger] pool[i])
}

pub fn matches_tags_any(hit_tags: &Vec<String>, any_pool: &[String]) -> (r: bool)
    ensures
        r == any_tag(text::texts(hit_tags@), text::texts(any_pool@)),
{
    let ghost pool = text::texts(any_pool@);
    if any_pool.len() == 0 {
        return true;
    }
    let mut i: usize = 0;
    while i < any_pool.len()
        invariant
            pool == text::texts(any_pool@),
            i <= any_pool@.len(),
            forall|k: int| 0 <= k < i ==> !text::texts(hit_tags@).contains(#[trigger] pool[k]),
        decreases any_pool@.len() - i,
    {
        if contains_text(hit_tags, &any_pool[i]) {
            assert(text::texts(hit_tags@).contains(pool[i as int]));
            return true;
        }
        i += 1;
    }
    false
}

pub fn matches_tags_all(hit_tags: &Vec<String>, all_pool: &[String]) -> (r: bool)
    ensures
        r == all_tags(text::texts(hit_tags@), text::texts(all_pool@)),
{
    let ghost pool = text::texts(all_pool@);
    let mut i: usize = 0;
    while i < all_pool.len()
        invariant
            pool == text::texts(all_pool@),
            i <= all_pool@.len(),
            forall|k: int| 0 <= k < i ==> text::texts(hit_tags@).contains(#[trigger] pool[k]),
        decreases all_pool@.len() - i,
    {
        if !contains_text(hit_tags, &all_pool[i]) {
            assert(!text::texts(hit_tags@).contains(pool[i as int]));
            return false;
        }
        i += 1;
    }
    true
}

/// The characters of an optional string slice.
pub open spec fn slice_text(o: Option<&str>) -> Option<Seq<char>> {
    match o {
        Some(s) => Some(s@),
        None => None,
    }
}

/// The date lies between the bounds that are there, in dictionary order. A
/// missing date passes only where there is no bound.
pub open spec fn date_within(
    date: Option<Seq<char>>,
    from: Option<Seq<char>>,
    to: Option<Seq<char>>,
) -> bool {
    match date {
        Some(d) => {
            &&& from matches Some(f) ==> !text::precedes(d, f)
            &&& to matches Some(t) ==> !text::precedes(t, d)
        },
        None => from is None && to is None,
    }
}

pub fn matches_date_range(hit_date: Option<&str>, from: Option<&str>, to: Option<&str>) -> (r: bool)
    ensures
        r == date_within(slice_text(hit_date), slice_text(from), slice_text(to)),
{
    if from.is_none() && to.is_none() {
        return true;
    }
    let d = match hit_date {
        Some(d) => d,
        None => {
            return false;
        },
    };
    if let Some(f) = from {
        if text_precedes(d, f) {
            return false;
        }
    }
    if let Some(t) = to {
        if text_precedes(t, d) {
            return false;
        }
    }
    true
}

/// One row of a search, as the index returns it.
#[derive(Debug, Clone)]
pub struct CandidateRow {
    pub chunk_id: i64,
    pub score: Float32,
    pub content: String,
    pub heading: Option<String>,
    pub quality_score: Float32,
    pub document_id: i64,
    pub path: String,
    pub title: Option<String>,
    pub topic: Option<String>,
    pub date: Option<String>,
    pub category: Option<String>,
    pub tags_json: Option<String>,
    pub context_text: Option<String>,
}

/// What a filter on quality, category, topic and path says of a row.
pub open spec fn passes_columns(row: CandidateRow, filters: SearchFilters<'_>) -> bool {
    &&& !(Float32::zero().below(filters.min_quality) && row.quality_score.below(
        filters.min_quality,
    ))
    &&& filters.category matches Some(c) ==> text::option_text(row.category) == Some(c@)
    &&& filters.topic matches Some(t) ==> text::option_text(row.topic) == Some(t@)
    &&& filters.path_globs matches Some(g) ==> g.admits(row.path@)
}

/// What a filter on tags and date says of a row.
pub open spec fn passes_tags_and_date(row: CandidateRow, filters: SearchFilters<'_>) -> bool {
    let own = tags::stored_tags(row.tags_json);
    &&& any_tag(own, text::texts(filters.tags_any@))
    &&& all_tags(own, text::texts(filters.tags_all@))
    &&& date_within(
        text::option_text(row.date),
        slice_text(filters.date_from),
        slice_text(filters.date_to),
    )
}

/// The filters keep the row.
pub open spec fn passes(row: CandidateRow, filters: SearchFilters<'_>) -> bool {
    passes_columns(row, filters) && passes_tags_and_date(row, filters)
}

/// The hit that a row becomes.
pub open spec fn hit_of(row: CandidateRow) -> (i64, ResultText) {
    (
        row.chunk_id,
        ResultText {
            score: row.score,
            content: row.content@,
            heading: text::option_text(row.heading),
            document_id: row.document_id,
            path: row.path@,
            title: text::option_text(row.title),
            topic: text::option_text(row.topic),
            date: text::option_text(row.date),
            tags: tags::stored_tags(row.tags_json),
            context_text: text::option_text(row.context_text),
        },
    )
}

/// The hits of a list as characters.
pub open spec fn hit_texts(hits: Seq<(i64, SearchResult)>) -> Seq<(i64, ResultText)> {
    Seq::new(hits.len(), |i: int| (hits[i].0, hits[i].1@))
}

/// The same characters in an optional string as in a string slice.
fn option_is(o: &Option<String>, s: &str) -> (r: bool)
    ensures
        r == (text::option_text(*o) == Some(s@)),
{
    match o {
        Some(t) => same_text(t.as_str(), s),
        None => false,
    }
}

/// A slice of an optional string.
pub fn slice_of(o: &Option<String>) -> (r: Option<&str>)
    ensures
        slice_text(r) == text::option_text(*o),
{
    match o {
        Some(s) => Some(s.as_str()),
        None => None,
    }
}

/// Turns a row into a hit where the filters keep it. Tags are read only once
/// the row has passed the other columns; a list that cannot be read is counted
/// and taken as empty.
pub fn filter_row(row: CandidateRow, filters: &SearchFilters<'_>, failures: &mut TagFailures) -> (r:
    Option<(i64, SearchResult)>)
    ensures
        r is Some <==> passes(row, *filters),
        r matches Some(hit) ==> (hit.0, hit.1@) == hit_of(row),
        final(failures).delta == (if passes_columns(row, *filters) && tags::malformed_tags(
            row.tags_json,
        ) {
            tags::counted_up(old(failures).delta)
        } else {
            old(failures).delta
        }),
{
    if Float32::from_bits(0).less(filters.min_quality) && row.quality_score.less(
        filters.min_quality,
    ) {
        return None;
    }
    if let Some(c) = filters.category {
        if !option_is(&row.category, c) {
            return None;
        }
    }
    if let Some(t) = filters.topic {
        if !option_is(&row.topic, t) {
            return None;
        }
    }
    if let Some(g) = filters.path_globs {
        if !g.matches(row.path.as_str()) {
            return None;
        }
    }
    let own = failures.parse_tags_json_recording(row.tags_json);
    if !matches_tags_any(&own, filters.tags_any) {
        return None;
    }
    if !matches_tags_all(&own, filters.tags_all) {
        return None;
    }
    if !matches_date_range(slice_of(&row.date), filters.date_from, filters.date_to) {
        return None;
    }
    Some(
        (
            row.chunk_id,
            SearchResult {
                score: row.score,
                content: row.content,
                heading: row.heading,
                document_id: row.document_id,
                path: row.path,
                title: row.title,
                topic: row.topic,
                date: row.date,
                tags: own,
                context_text: row.context_text,
            },
        ),
    )
}

} // verus!
