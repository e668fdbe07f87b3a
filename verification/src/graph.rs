//! The connection graph: a breadth-first walk from the chunks of a document to
//! their nearest neighbours, under a budget of nodes.
//!
//! The walk itself never touches the index. It says which question to put to
//! it next and takes the answer, so that everything it decides is here.

use crate::db;
use crate::db::{slice_of, ResultText, SearchFilters, SearchResult};
use crate::float::Float32;
use crate::text;
use crate::text::{chars_of, push_decimal, to_text};
use vstd::prelude::*;
use vstd::string::StringExecFns;

verus! {

pub const MAX_DEPTH: u32 = 3;

pub const MAX_FAN_OUT: u32 = 20;

pub const DEFAULT_DEPTH: u32 = 2;

pub const DEFAULT_FAN_OUT: u32 = 5;

pub const DEFAULT_MAX_SEED_CHUNKS: u32 = 32;

pub const MAX_SEED_CHUNKS_CEILING: u32 = 1000;

pub const DEFAULT_MAX_NODES: u32 = 100;

pub const MAX_NODES_CEILING: u32 = 2000;

/// How much of a chunk a node shows.
pub const SNIPPET_MAX_CHARS: usize = 200;

/// The most entries that a list of a request may have.
pub const MAX_FILTER_ENTRIES: usize = 64;

/// The most bytes that one entry of such a list may have.
pub const MAX_FILTER_ENTRY_BYTES: usize = 1024;

/// Where the walk starts: from every chunk of the document, or from one point
/// that stands for all of them.
#[derive(Debug, Clone, Copy, PartialEq, Eq, Structural)]
pub enum SeedStrategy {
    AllChunks,
    Centroid,
}

impl Default for SeedStrategy {
    fn default() -> (r: Self)
        ensures
            r == SeedStrategy::AllChunks,
    {
        SeedStrategy::AllChunks
    }
}

/// What a caller asks of the graph.
#[derive(Debug, Clone)]
pub struct GraphOptions {
    pub depth: u32,
    pub fan_out: u32,
    pub min_similarity: Float32,
    pub seed_strategy: SeedStrategy,
    pub category: Option<String>,
    pub topic: Option<String>,
    pub exclude_paths: Vec<String>,
    pub dedup_by_path: bool,
    pub min_quality: Float32,
    pub max_seed_chunks: u32,
    pub max_nodes: u32,
}

impl Default for GraphOptions {
    /// Similarity and quality of at least 0.3, and the default budgets.
    fn default() -> (r: Self)
        ensures
            r.depth == DEFAULT_DEPTH,
            r.fan_out == DEFAULT_FAN_OUT,
            r.min_similarity == Float32::three_tenths(),
            r.seed_strategy == SeedStrategy::AllChunks,
            r.category is None,
            r.topic is None,
            r.exclude_paths@.len() == 0,
            !r.dedup_by_path,
            r.min_quality == Float32::three_tenths(),
            r.max_seed_chunks == DEFAULT_MAX_SEED_CHUNKS,
            r.max_nodes == DEFAULT_MAX_NODES,
    {
        GraphOptions {
            depth: DEFAULT_DEPTH,
            fan_out: DEFAULT_FAN_OUT,
            min_similarity: default_min_similarity(),
            seed_strategy: SeedStrategy::AllChunks,
            category: None,
            topic: None,
            exclude_paths: Vec::new(),
            dedup_by_path: false,
            min_quality: Float32::from_bits(0x3e99_999a),
            max_seed_chunks: DEFAULT_MAX_SEED_CHUNKS,
            max_nodes: DEFAULT_MAX_NODES,
        }
    }
}

/// The similarity below which a neighbour is dropped unless the caller says
/// otherwise: 0.3.
pub fn default_min_similarity() -> (r: Float32)
    ensures
        r == Float32::three_tenths(),
{
    Float32::from_bits(0x3e99_999a)
}

impl GraphOptions {
    /// `r` asks for the category, the topic and the quality of the options, and for
    /// nothing else.
    pub open spec fn asks_with(self, r: SearchFilters<'_>) -> bool {
        &&& db::slice_text(r.category) == text::option_text(self.category)
        &&& db::slice_text(r.topic) == text::option_text(self.topic)
        &&& r.min_quality == self.min_quality
        &&& r.path_globs is None
        &&& r.tags_any@.len() == 0
        &&& r.tags_all@.len() == 0
        &&& r.date_from is None
        &&& r.date_to is None
    }

    /// What a question about neighbours asks of the index: the category, the
    /// topic and the quality of the options, and nothing else.
    pub fn neighbour_filters(&self) -> (r: SearchFilters<'_>)
        ensures
            self.asks_with(r),
            db::slice_text(r.category) == text::option_text(self.category),
            db::slice_text(r.topic) == text::option_text(self.topic),
            r.min_quality == self.min_quality,
            r.path_globs is None,
            r.tags_any@.len() == 0,
            r.tags_all@.len() == 0,
            r.date_from is None,
            r.date_to is None,
    {
        let mut filters = SearchFilters::default();
        filters.category = slice_of(&self.category);
        filters.topic = slice_of(&self.topic);
        filters.min_quality = self.min_quality;
        filters
    }
}

/// The node budget where `n` nodes are asked for.
pub open spec fn node_bound(n: u32) -> u32 {
    if n < MAX_NODES_CEILING {
        n
    } else {
        MAX_NODES_CEILING
    }
}

/// The cap on seeds where `n` of them are asked for.
pub open spec fn seed_bound(n: u32) -> u32 {
    if n < 1 {
        1
    } else if n < MAX_SEED_CHUNKS_CEILING {
        n
    } else {
        MAX_SEED_CHUNKS_CEILING
    }
}

/// The node budget, no higher than its ceiling. Zero asks for an empty graph.
pub fn clamp_max_nodes(n: u32) -> (r: u32)
    ensures
        r == node_bound(n),
        r == (if n < MAX_NODES_CEILING {
            n
        } else {
            MAX_NODES_CEILING
        }),
{
    if n < MAX_NODES_CEILING {
        n
    } else {
        MAX_NODES_CEILING
    }
}

/// The cap on seeds: at least one and no higher than its ceiling.
pub fn clamp_max_seed_chunks(n: u32) -> (r: u32)
    ensures
        r == seed_bound(n),
        r == (if n < 1 {
            1
        } else if n < MAX_SEED_CHUNKS_CEILING {
            n
        } else {
            MAX_SEED_CHUNKS_CEILING
        }),
{
    if n < 1 {
        1
    } else if n < MAX_SEED_CHUNKS_CEILING {
        n
    } else {
        MAX_SEED_CHUNKS_CEILING
    }
}

/// Which bound cut the graph.
#[derive(Debug, Clone, Copy, PartialEq, Eq, Structural)]
pub enum TruncationReason {
    /// The document has more chunks than may be seeds.
    SeedChunks,
    /// The node budget is spent.
    NodeBudget,
}

impl TruncationReason {
    /// The name of a reason.
    pub open spec fn name(self) -> Seq<char> {
        match self {
            TruncationReason::SeedChunks => "seed_chunks"@,
            TruncationReason::NodeBudget => "node_budget"@,
        }
    }

    pub fn as_str(self) -> (r: &'static str)
        ensures
            r@ == self.name(),
    {
        match self {
            TruncationReason::SeedChunks => "seed_chunks",
            TruncationReason::NodeBudget => "node_budget",
        }
    }
}

/// One bound that cut the graph, with its value and with what to do about it.
#[derive(Debug, Clone)]
pub struct GraphTruncation {
    pub reason: TruncationReason,
    pub limit: u32,
    pub detail: String,
}

/// A bound as characters.
pub struct TruncationText {
    pub reason: TruncationReason,
    pub limit: u32,
    pub detail: Seq<char>,
}

impl View for GraphTruncation {
    type V = TruncationText;

    open spec fn view(&self) -> TruncationText {
        TruncationText { reason: self.reason, limit: self.limit, detail: self.detail@ }
    }
}

/// One chunk of the graph and the node it was reached from.
#[derive(Debug, Clone)]
pub struct GraphNode {
    pub node_id: usize,
    pub parent_id: Option<usize>,
    pub depth: u32,
    pub chunk_id: i64,
    pub score: Float32,
    pub path: String,
    pub heading: Option<String>,
    pub title: Option<String>,
    pub topic: Option<String>,
    pub snippet: String,
}

/// A node as characters.
pub struct NodeText {
    pub node_id: int,
    pub parent_id: Option<int>,
    pub depth: u32,
    pub chunk_id: i64,
    pub score: Float32,
    pub path: Seq<char>,
    pub heading: Option<Seq<char>>,
    pub title: Option<Seq<char>>,
    pub topic: Option<Seq<char>>,
    pub snippet: Seq<char>,
}

impl View for GraphNode {
    type V = NodeText;

    open spec fn view(&self) -> NodeText {
        NodeText {
            node_id: self.node_id as int,
            parent_id: match self.parent_id {
                Some(p) => Some(p as int),
                None => None,
            },
            depth: self.depth,
            chunk_id: self.chunk_id,
            score: self.score,
            path: self.path@,
            heading: text::option_text(self.heading),
            title: text::option_text(self.title),
            topic: text::option_text(self.topic),
            snippet: self.snippet@,
        }
    }
}

/// What the walk has cost and how far it went.
#[derive(Debug, Clone, Copy, PartialEq, Eq, Structural)]
pub struct GraphStats {
    pub total_nodes: usize,
    pub max_depth_reached: u32,
    pub knn_queries: u32,
    pub duration_ms: u64,
    pub seeds_used: u32,
}

/// The graph around one document.
#[derive(Debug, Clone)]
pub struct ConnectionGraph {
    pub start_path: String,
    pub truncated: bool,
    pub truncation: Vec<GraphTruncation>,
    pub nodes: Vec<GraphNode>,
    pub stats: GraphStats,
}

/// Why there is no graph.
#[derive(Debug, Clone)]
pub enum GraphError {
    /// The list of excluded paths has too many entries.
    TooManyEntries { count: usize },
    /// An entry of the list of excluded paths is too large.
    EntryTooLarge { index: usize, bytes: usize },
    /// The document has no chunks.
    NotFound { path: String },
}

impl GraphError {
    pub open spec fn text(self) -> Seq<char> {
        match self {
            GraphError::TooManyEntries { count } => "exclude_paths: too many entries ("@
                + text::decimal(count as nat) + " > 64)"@,
            GraphError::EntryTooLarge { index, bytes } => "exclude_paths["@ + text::decimal(
                index as nat,
            ) + "]: entry too large ("@ + text::decimal(bytes as nat) + " bytes > 1024)"@,
            GraphError::NotFound { path } => "document not found (no chunks for path): "@ + path@
                + ". Run `kb-mcp index` to (re)index the knowledge base."@,
        }
    }

    pub fn message(&self) -> (r: String)
        ensures
            r@ == self.text(),
    {
        match self {
            GraphError::TooManyEntries { count } => {
                let mut out = to_text("exclude_paths: too many entries (");
                push_decimal(&mut out, *count as u64);
                out.append(" > 64)");
                out
            },
            GraphError::EntryTooLarge { index, bytes } => {
                let mut out = to_text("exclude_paths[");
                push_decimal(&mut out, *index as u64);
                out.append("]: entry too large (");
                push_decimal(&mut out, *bytes as u64);
                out.append(" bytes > 1024)");
                out
            },
            GraphError::NotFound { path } => {
                let mut out = to_text("document not found (no chunks for path): ");
                out.append(path.as_str());
                out.append(". Run `kb-mcp index` to (re)index the knowledge base.");
                out
            },
        }
    }
}

/// Whether an entry of a request's list is larger than allowed.
pub open spec fn oversized(entry: Seq<char>) -> bool {
    text::byte_len(entry) > MAX_FILTER_ENTRY_BYTES
}

/// `r` is what is said of the excluded paths.
pub open spec fn paths_checked(paths: Seq<String>, r: Result<(), GraphError>) -> bool {
    match r {
        Ok(_) => paths.len() <= MAX_FILTER_ENTRIES && forall|i: int|
            0 <= i < paths.len() ==> !oversized((#[trigger] paths[i])@),
        Err(GraphError::TooManyEntries { count }) => paths.len() > MAX_FILTER_ENTRIES && count
            == paths.len(),
        Err(GraphError::EntryTooLarge { index, bytes }) => {
            &&& paths.len() <= MAX_FILTER_ENTRIES
            &&& index < paths.len()
            &&& oversized(paths[index as int]@)
            &&& bytes == text::byte_len(paths[index as int]@)
            &&& forall|i: int| 0 <= i < index ==> !oversized((#[trigger] paths[i])@)
        },
        Err(_) => false,
    }
}

/// Refuses a list of excluded paths that is too long, or that holds an entry
/// that is too large: then it names the first such entry.
pub fn check_exclude_paths(paths: &Vec<String>) -> (r: Result<(), GraphError>)
    ensures
        paths_checked(paths@, r),
        match r {
            Ok(_) => paths@.len() <= MAX_FILTER_ENTRIES && forall|i: int|
                0 <= i < paths@.len() ==> !oversized((#[trigger] paths@[i])@),
            Err(GraphError::TooManyEntries { count }) => paths@.len() > MAX_FILTER_ENTRIES && count
                == paths@.len(),
            Err(GraphError::EntryTooLarge { index, bytes }) => {
                &&& paths@.len() <= MAX_FILTER_ENTRIES
                &&& index < paths@.len()
                &&& oversized(paths@[index as int]@)
                &&& bytes == text::byte_len(paths@[index as int]@)
                &&& forall|i: int| 0 <= i < index ==> !oversized((#[trigger] paths@[i])@)
            },
            Err(_) => false,
        },
{
    if paths.len() > MAX_FILTER_ENTRIES {
        return Err(GraphError::TooManyEntries { count: paths.len() });
    }
    let mut i: usize = 0;
    while i < paths.len()
        invariant
            i <= paths@.len(),
            paths@.len() <= MAX_FILTER_ENTRIES,
            forall|k: int| 0 <= k < i ==> !oversized((#[trigger] paths@[k])@),
        decreases paths@.len() - i,
    {
        let bytes = text::byte_count(paths[i].as_str());
        if bytes > MAX_FILTER_ENTRY_BYTES {
            return Err(GraphError::EntryTooLarge { index: i, bytes });
        }
        i += 1;
    }
    Ok(())
}

// ---------------------------------------------------------------------------
// Nodes and bounds
// ---------------------------------------------------------------------------

/// The beginning of a chunk, with an ellipsis where there is more.
pub open spec fn snippet(content: Seq<char>) -> Seq<char> {
    if content.len() <= SNIPPET_MAX_CHARS {
        content
    } else {
        content.take(SNIPPET_MAX_CHARS as int).push('…')
    }
}

pub fn make_snippet(content: &str) -> (r: String)
    ensures
        r@ == snippet(content@),
{
    let chars = chars_of(content);
    let mut out = String::new();
    let mut i: usize = 0;
    while i < chars.len() && i < SNIPPET_MAX_CHARS
        invariant
            chars@ == content@,
            i <= chars@.len(),
            i <= SNIPPET_MAX_CHARS,
            out@ == content@.take(i as int),
        decreases chars@.len() - i,
    {
        out.push(chars[i]);
        i += 1;
        proof {
            assert(content@.take(i as int) == content@.take(i - 1).push(content@[i - 1]));
        }
    }
    proof {
        assert(content@.take(content@.len() as int) == content@);
    }
    if chars.len() > SNIPPET_MAX_CHARS {
        out.push('…');
    }
    out
}

/// The node that a hit becomes.
pub open spec fn node_of(
    node_id: int,
    parent_id: Option<int>,
    depth: u32,
    chunk_id: i64,
    score: Float32,
    r: ResultText,
) -> NodeText {
    NodeText {
        node_id,
        parent_id,
        depth,
        chunk_id,
        score,
        path: r.path,
        heading: r.heading,
        title: r.title,
        topic: r.topic,
        snippet: snippet(r.content),
    }
}

pub fn make_node(
    node_id: usize,
    parent_id: Option<usize>,
    depth: u32,
    chunk_id: i64,
    score: Float32,
    r: &SearchResult,
) -> (n: GraphNode)
    ensures
        n@ == node_of(
            node_id as int,
            match parent_id {
                Some(p) => Some(p as int),
                None => None,
            },
            depth,
            chunk_id,
            score,
            r@,
        ),
{
    GraphNode {
        node_id,
        parent_id,
        depth,
        chunk_id,
        score,
        path: r.path.clone(),
        heading: text::copy_option(&r.heading),
        title: text::copy_option(&r.title),
        topic: text::copy_option(&r.topic),
        snippet: make_snippet(r.content.as_str()),
    }
}

/// The bounds of a list as characters.
pub open spec fn truncation_texts(v: Seq<GraphTruncation>) -> Seq<TruncationText> {
    Seq::new(v.len(), |i: int| v[i]@)
}

/// Whether a bound is on the list.
pub open spec fn names_reason(t: Seq<TruncationText>, reason: TruncationReason) -> bool {
    exists|i: int| 0 <= i < t.len() && (#[trigger] t[i]).reason == reason
}

/// The list with one more bound, unless it is there already.
pub open spec fn noted(t: Seq<TruncationText>, entry: TruncationText) -> Seq<TruncationText> {
    if names_reason(t, entry.reason) {
        t
    } else {
        t.push(entry)
    }
}

/// Notes a bound, each at most once.
pub fn push_truncation(
    out: &mut Vec<GraphTruncation>,
    reason: TruncationReason,
    limit: u32,
    detail: String,
)
    ensures
        truncation_texts(final(out)@) == noted(
            truncation_texts(old(out)@),
            (TruncationText { reason, limit, detail: detail@ }),
        ),
{
    let ghost before = truncation_texts(out@);
    let mut i: usize = 0;
    while i < out.len()
        invariant
            before == truncation_texts(out@),
            *out == *old(out),
            i <= out@.len(),
            forall|k: int| 0 <= k < i ==> (#[trigger] before[k]).reason != reason,
        decreases out@.len() - i,
    {
        assert(before[i as int].reason == out@[i as int].reason);
        if out[i].reason == reason {
            return;
        }
        i += 1;
    }
    out.push(GraphTruncation { reason, limit, detail });
    proof {
        assert(truncation_texts(out@) == before.push(
            (TruncationText { reason, limit, detail: detail@ }),
        ));
    }
}

/// What is said where the node budget is spent: the budget, and each way to
/// get around it.
pub open spec fn node_budget_text(limit: nat) -> Seq<char> {
    "the graph hit its node budget of "@ + text::decimal(limit)
        + "; the walk stopped before the frontier was exhausted. To get more nodes, raise max_nodes. To spend the budget on depth instead of breadth, use seed_strategy \"centroid\" or lower max_seed_chunks / fan_out. To get fewer but more relevant nodes, raise min_similarity, set dedup_by_path, or use the category / topic / exclude_paths filters."@
}

pub fn node_budget_detail(limit: u32) -> (r: String)
    ensures
        r@ == node_budget_text(limit as nat),
{
    let mut out = to_text("the graph hit its node budget of ");
    push_decimal(&mut out, limit as u64);
    out.append(
        "; the walk stopped before the frontier was exhausted. To get more nodes, raise max_nodes. To spend the budget on depth instead of breadth, use seed_strategy \"centroid\" or lower max_seed_chunks / fan_out. To get fewer but more relevant nodes, raise min_similarity, set dedup_by_path, or use the category / topic / exclude_paths filters.",
    );
    out
}

/// What is said where the document has more chunks than may be seeds.
pub open spec fn seed_cap_text(strategy: SeedStrategy, cap: nat) -> Seq<char> {
    match strategy {
        SeedStrategy::AllChunks => "the start document has more than "@ + text::decimal(cap)
            + " chunks; only its first "@ + text::decimal(cap)
            + " were expanded as BFS seeds. Raise max_seed_chunks, or use seed_strategy \"centroid\" to fold the whole document into a single seed."@,
        SeedStrategy::Centroid => "the start document has more than "@ + text::decimal(cap)
            + " chunks; the centroid is the average of its first "@ + text::decimal(cap)
            + " chunks, not of the whole document. Raise max_seed_chunks for a centroid over more of it."@,
    }
}

pub fn seed_cap_detail(strategy: SeedStrategy, cap: u32) -> (r: String)
    ensures
        r@ == seed_cap_text(strategy, cap as nat),
{
    let mut out = to_text("the start document has more than ");
    push_decimal(&mut out, cap as u64);
    match strategy {
        SeedStrategy::AllChunks => {
            out.append(" chunks; only its first ");
            push_decimal(&mut out, cap as u64);
            out.append(
                " were expanded as BFS seeds. Raise max_seed_chunks, or use seed_strategy \"centroid\" to fold the whole document into a single seed.",
            );
        },
        SeedStrategy::Centroid => {
            out.append(" chunks; the centroid is the average of its first ");
            push_decimal(&mut out, cap as u64);
            out.append(
                " chunks, not of the whole document. Raise max_seed_chunks for a centroid over more of it.",
            );
        },
    }
    out
}

} // verus!
