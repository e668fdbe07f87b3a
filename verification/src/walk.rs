//! The walk that builds a connection graph, one question at a time.

use crate::db::{ResultText, SearchResult};
use crate::float::Float32;
use crate::graph;
use crate::graph::{
    clamp_max_nodes, clamp_max_seed_chunks, make_node, node_budget_detail, push_truncation,
    seed_cap_detail, ConnectionGraph, GraphError, GraphNode, GraphOptions, GraphStats, GraphTruncation,
    NodeText, SeedStrategy, TruncationReason, TruncationText, MAX_NODES_CEILING,
    MAX_SEED_CHUNKS_CEILING,
};
use crate::tags;
use crate::tags::TagFailures;
use crate::text;
use crate::text::{contains_text, to_text};
use vstd::prelude::*;

verus! {

/// A chunk of the document that the walk starts from.
#[derive(Debug, Clone)]
pub struct Seed {
    pub chunk_id: i64,
    pub result: SearchResult,
}

/// One chunk of a document, as the index returns it.
#[derive(Debug, Clone)]
pub struct SeedRow {
    pub chunk_id: i64,
    pub content: String,
    pub heading: Option<String>,
    pub document_id: i64,
    pub path: String,
    pub title: Option<String>,
    pub topic: Option<String>,
    pub date: Option<String>,
    pub tags_json: Option<String>,
}

/// The seed that a row becomes: with full score, and without context, which a
/// seed has no use for. A tag list that cannot be read is counted.
pub fn seed_of_row(row: SeedRow, failures: &mut TagFailures) -> (r: Seed)
    ensures
        r.chunk_id == row.chunk_id,
        r.result@ == (ResultText {
            score: Float32::one(),
            content: row.content@,
            heading: text::option_text(row.heading),
            document_id: row.document_id,
            path: row.path@,
            title: text::option_text(row.title),
            topic: text::option_text(row.topic),
            date: text::option_text(row.date),
            tags: tags::stored_tags(row.tags_json),
            context_text: None,
        }),
        final(failures).delta == (if tags::malformed_tags(row.tags_json) {
            tags::counted_up(old(failures).delta)
        } else {
            old(failures).delta
        }),
{
    let own = failures.parse_tags_json_recording(row.tags_json);
    Seed {
        chunk_id: row.chunk_id,
        result: SearchResult {
            score: Float32::from_bits(0x3f80_0000),
            content: row.content,
            heading: row.heading,
            document_id: row.document_id,
            path: row.path,
            title: row.title,
            topic: row.topic,
            date: row.date,
            tags: own,
            context_text: None,
        },
    }
}

/// A neighbour that the index has found, with its similarity to the chunk that
/// was asked about.
#[derive(Debug, Clone)]
pub struct Neighbour {
    pub chunk_id: i64,
    pub similarity: Float32,
    pub result: SearchResult,
}

/// A neighbour as characters.
pub struct NeighbourText {
    pub chunk_id: i64,
    pub similarity: Float32,
    pub result: ResultText,
}

impl View for Neighbour {
    type V = NeighbourText;

    open spec fn view(&self) -> NeighbourText {
        NeighbourText {
            chunk_id: self.chunk_id,
            similarity: self.similarity,
            result: self.result@,
        }
    }
}

/// The bounds and filters of one walk.
#[derive(Debug, Clone, Copy, PartialEq, Eq, Structural)]
pub struct WalkLimits {
    pub depth: u32,
    pub fan_out: u32,
    pub min_similarity: Float32,
    pub dedup_by_path: bool,
    pub max_nodes: u32,
}

/// What the walk is doing.
pub enum PhaseState {
    /// Looking for a node to ask about.
    Idle,
    /// Waiting for the neighbours of a node.
    Querying { parent: int },
    /// Going through the neighbours that are left; `added` of them have become
    /// nodes.
    Scanning { parent: int, rest: Seq<NeighbourText>, added: nat },
    /// Waiting to hear whether a neighbour has an embedding.
    Fetching { parent: int, candidate: NeighbourText, rest: Seq<NeighbourText>, added: nat },
    /// Nothing is left to ask.
    Finished,
}

/// The walk at one moment. The nodes from `head` on have not been looked at
/// yet, in the order in which they were found.
pub struct WalkState {
    pub nodes: Seq<NodeText>,
    pub head: nat,
    pub visited: Set<i64>,
    pub blocked: Set<Seq<char>>,
    pub truncation: Seq<TruncationText>,
    pub knn_queries: nat,
    pub max_depth_reached: u32,
    pub phase: PhaseState,
}

/// The walk with a note that the node budget cut it.
pub open spec fn refused(l: WalkLimits, s: WalkState) -> WalkState {
    WalkState {
        truncation: graph::noted(
            s.truncation,
            TruncationText {
                reason: TruncationReason::NodeBudget,
                limit: l.max_nodes,
                detail: graph::node_budget_text(l.max_nodes as nat),
            },
        ),
        ..s
    }
}

/// The filters drop the neighbour: it has been seen, its path is blocked, or it
/// is not similar enough.
pub open spec fn dropped(l: WalkLimits, s: WalkState, c: NeighbourText) -> bool {
    ||| s.visited.contains(c.chunk_id)
    ||| s.blocked.contains(c.result.path)
    ||| c.similarity.below(l.min_similarity)
}

/// The walk once it has taken a neighbour up: it will not come again, nor will
/// its path where paths are to differ.
pub open spec fn taken_up(l: WalkLimits, s: WalkState, c: NeighbourText) -> WalkState {
    WalkState {
        visited: s.visited.insert(c.chunk_id),
        blocked: if l.dedup_by_path {
            s.blocked.insert(c.result.path)
        } else {
            s.blocked
        },
        ..s
    }
}

/// The walk waiting for the embedding of the first neighbour that is left.
pub open spec fn fetching(
    l: WalkLimits,
    s: WalkState,
    parent: int,
    rest: Seq<NeighbourText>,
    added: nat,
) -> WalkState {
    WalkState {
        phase: PhaseState::Fetching { parent, candidate: rest[0], rest: rest.skip(1), added },
        ..taken_up(l, s, rest[0])
    }
}

/// The walk moved on to its next question, or to its end.
///
/// Neighbours are gone through until enough of them have become nodes; one that
/// passes the filters while the budget is spent ends the scan. A node that lies
/// at the full depth is passed over; so is every other one once the budget is
/// spent, but that is noted.
pub open spec fn settled(l: WalkLimits, s: WalkState) -> WalkState
    decreases
            s.nodes.len() - s.head,
            match s.phase {
                PhaseState::Scanning { parent, rest, added } => rest.len() + 1,
                _ => 0,
            },
{
    match s.phase {
        PhaseState::Scanning { parent, rest, added } => if rest.len() == 0 || added >= l.fan_out {
            settled(l, WalkState { phase: PhaseState::Idle, ..s })
        } else if dropped(l, s, rest[0]) {
            settled(
                l,
                WalkState {
                    phase: PhaseState::Scanning { parent, rest: rest.skip(1), added },
                    ..s
                },
            )
        } else if s.nodes.len() >= l.max_nodes {
            settled(l, WalkState { phase: PhaseState::Idle, ..refused(l, s) })
        } else {
            fetching(l, s, parent, rest, added)
        },
        PhaseState::Idle => if l.fan_out == 0 || s.head >= s.nodes.len() {
            WalkState { phase: PhaseState::Finished, ..s }
        } else if s.nodes[s.head as int].depth >= l.depth {
            settled(l, WalkState { head: s.head + 1, ..s })
        } else if s.nodes.len() >= l.max_nodes {
            settled(l, WalkState { head: s.head + 1, ..refused(l, s) })
        } else {
            WalkState {
                head: s.head + 1,
                phase: PhaseState::Querying { parent: s.head as int },
                ..s
            }
        },
        _ => s,
    }
}

/// The walk with the answer to a question about neighbours.
pub open spec fn answered(s: WalkState, neighbours: Seq<NeighbourText>) -> WalkState {
    match s.phase {
        PhaseState::Querying { parent } => WalkState {
            knn_queries: s.knn_queries + 1,
            phase: PhaseState::Scanning { parent, rest: neighbours, added: 0 },
            ..s
        },
        _ => s,
    }
}

/// The walk with the answer to a question about an embedding. A neighbour that
/// has one becomes a node below the node that was asked about.
pub open spec fn embedded(s: WalkState, found: bool) -> WalkState {
    match s.phase {
        PhaseState::Fetching { parent, candidate, rest, added } => if found {
            let depth = (s.nodes[parent].depth + 1) as u32;
            WalkState {
                nodes: s.nodes.push(
                    graph::node_of(
                        s.nodes.len() as int,
                        Some(parent),
                        depth,
                        candidate.chunk_id,
                        candidate.similarity,
                        candidate.result,
                    ),
                ),
                max_depth_reached: if depth > s.max_depth_reached {
                    depth
                } else {
                    s.max_depth_reached
                },
                phase: PhaseState::Scanning { parent, rest, added: added + 1 },
                ..s
            }
        } else {
            WalkState { phase: PhaseState::Scanning { parent, rest, added }, ..s }
        },
        _ => s,
    }
}

// ---------------------------------------------------------------------------
// The start
// ---------------------------------------------------------------------------

/// The node of a seed: at depth zero, without a parent, with full score.
pub open spec fn seed_node(seeds: Seq<Seed>, i: int) -> NodeText {
    graph::node_of(i, None, 0, seeds[i].chunk_id, Float32::one(), seeds[i].result@)
}

/// How many nodes the seeds become: one each as far as the budget goes, or one
/// for all of them.
pub open spec fn seed_nodes(strategy: SeedStrategy, seeds: nat, max_nodes: u32) -> nat {
    match strategy {
        SeedStrategy::AllChunks => if seeds < max_nodes {
            seeds
        } else {
            max_nodes as nat
        },
        SeedStrategy::Centroid => if max_nodes == 0 {
            0
        } else {
            1
        },
    }
}

/// Whether the budget cuts the seeds.
pub open spec fn seeds_cut(strategy: SeedStrategy, seeds: nat, max_nodes: u32) -> bool {
    match strategy {
        SeedStrategy::AllChunks => seeds > max_nodes,
        SeedStrategy::Centroid => max_nodes == 0,
    }
}

/// The chunks that a walk has seen when it starts: those of its nodes, or, where
/// one node stands for them, all the seeds.
pub open spec fn seen_at_start(strategy: SeedStrategy, seeds: Seq<Seed>, max_nodes: u32) -> Set<i64> {
    Set::new(
        |id: i64|
            exists|i: int|
                0 <= i < (match strategy {
                    SeedStrategy::AllChunks => seed_nodes(strategy, seeds.len(), max_nodes) as int,
                    SeedStrategy::Centroid => seeds.len() as int,
                }) && (#[trigger] seeds[i]).chunk_id == id,
    )
}

/// The limits of a walk with the given options.
pub open spec fn limits_of(o: GraphOptions) -> WalkLimits {
    WalkLimits {
        depth: o.depth,
        fan_out: o.fan_out,
        min_similarity: o.min_similarity,
        dedup_by_path: o.dedup_by_path,
        max_nodes: if o.max_nodes < MAX_NODES_CEILING {
            o.max_nodes
        } else {
            MAX_NODES_CEILING
        },
    }
}

/// The cap on the seeds of a walk with the given options.
pub open spec fn seed_cap(o: GraphOptions) -> u32 {
    if o.max_seed_chunks < 1 {
        1
    } else if o.max_seed_chunks < MAX_SEED_CHUNKS_CEILING {
        o.max_seed_chunks
    } else {
        MAX_SEED_CHUNKS_CEILING
    }
}

/// The bounds that cut a walk at its start.
pub open spec fn truncation_at_start(o: GraphOptions, seeds: nat, more_chunks: bool) -> Seq<
    TruncationText,
> {
    let first = if more_chunks {
        seq![
            TruncationText {
                reason: TruncationReason::SeedChunks,
                limit: seed_cap(o),
                detail: graph::seed_cap_text(o.seed_strategy, seed_cap(o) as nat),
            },
        ]
    } else {
        Seq::empty()
    };
    if seeds_cut(o.seed_strategy, seeds, limits_of(o).max_nodes) {
        first.push(
            TruncationText {
                reason: TruncationReason::NodeBudget,
                limit: limits_of(o).max_nodes,
                detail: graph::node_budget_text(limits_of(o).max_nodes as nat),
            },
        )
    } else {
        first
    }
}

/// The walk as it starts.
pub open spec fn started(
    start_path: Seq<char>,
    seeds: Seq<Seed>,
    more_chunks: bool,
    o: GraphOptions,
) -> WalkState {
    let l = limits_of(o);
    WalkState {
        nodes: Seq::new(
            seed_nodes(o.seed_strategy, seeds.len(), l.max_nodes),
            |i: int| seed_node(seeds, i),
        ),
        head: 0,
        visited: seen_at_start(o.seed_strategy, seeds, l.max_nodes),
        blocked: text::texts(o.exclude_paths@).to_set().insert(start_path),
        truncation: truncation_at_start(o, seeds.len(), more_chunks),
        knn_queries: 0,
        max_depth_reached: 0,
        phase: PhaseState::Idle,
    }
}

// ---------------------------------------------------------------------------
// What holds at every moment
// ---------------------------------------------------------------------------

/// What a walk knows of its start.
pub struct Origin {
    pub start_path: Seq<char>,
    pub excluded: Set<Seq<char>>,
    pub seeds: nat,
}

/// Nodes number themselves; the seeds lie at depth zero; every other node lies
/// one below a node that was looked at before, within the full depth.
#[verifier::opaque]
pub open spec fn tree_ok(l: WalkLimits, o: Origin, s: WalkState) -> bool {
    &&& s.head <= s.nodes.len() <= l.max_nodes
    &&& o.seeds <= s.nodes.len()
    &&& forall|i: int| 0 <= i < s.nodes.len() ==> (#[trigger] s.nodes[i]).node_id == i
    &&& forall|i: int|
        0 <= i < o.seeds ==> (#[trigger] s.nodes[i]).depth == 0 && s.nodes[i].parent_id is None
    &&& forall|i: int|
        o.seeds <= i < s.nodes.len() ==> {
            let n = #[trigger] s.nodes[i];
            &&& n.parent_id matches Some(p) && 0 <= p < i && p < s.head && n.depth
                == s.nodes[p].depth + 1
            &&& n.depth <= l.depth
        }
}

/// Nodes come in the order of their depths, and of their parents.
#[verifier::opaque]
pub open spec fn breadth_first(o: Origin, s: WalkState) -> bool {
    &&& forall|i: int, j: int|
        0 <= i < j < s.nodes.len() ==> (#[trigger] s.nodes[i]).depth <= (
        #[trigger] s.nodes[j]).depth
    &&& forall|i: int, j: int|
        o.seeds <= i < j < s.nodes.len() ==> (#[trigger] s.nodes[i]).parent_id->0 <= (
        #[trigger] s.nodes[j]).parent_id->0
}

/// No chunk is found twice, and the chunks of all nodes have been seen.
#[verifier::opaque]
pub open spec fn ids_ok(o: Origin, s: WalkState) -> bool {
    &&& forall|i: int| 0 <= i < s.nodes.len() ==> s.visited.contains((#[trigger] s.nodes[i]).chunk_id)
    &&& forall|i: int, j: int|
        0 <= i < j < s.nodes.len() && o.seeds <= j ==> (#[trigger] s.nodes[i]).chunk_id != (
        #[trigger] s.nodes[j]).chunk_id
}

/// No node that was found lies in the start document or an excluded one, none
/// is less similar than asked, and where paths are to differ they do.
#[verifier::opaque]
pub open spec fn filters_ok(l: WalkLimits, o: Origin, s: WalkState) -> bool {
    &&& s.blocked.contains(o.start_path)
    &&& o.excluded.subset_of(s.blocked)
    &&& forall|i: int|
        o.seeds <= i < s.nodes.len() ==> {
            let n = #[trigger] s.nodes[i];
            &&& n.path != o.start_path
            &&& !o.excluded.contains(n.path)
            &&& !n.score.below(l.min_similarity)
            &&& l.dedup_by_path ==> s.blocked.contains(n.path)
        }
    &&& l.dedup_by_path ==> forall|i: int, j: int|
        o.seeds <= i < j < s.nodes.len() ==> (#[trigger] s.nodes[i]).path != (
        #[trigger] s.nodes[j]).path
}

/// How many of the first `n` nodes lie above the full depth.
pub open spec fn expandable(l: WalkLimits, nodes: Seq<NodeText>, n: nat) -> nat
    decreases n,
{
    if n == 0 {
        0
    } else {
        expandable(l, nodes, (n - 1) as nat) + (if nodes[n - 1].depth < l.depth {
            1nat
        } else {
            0
        })
    }
}

/// One where the walk waits for neighbours.
pub open spec fn waiting(s: WalkState) -> nat {
    if s.phase is Querying {
        1
    } else {
        0
    }
}

/// Every question about neighbours is about another node. As long as the budget
/// has cut nothing, each node that lies above the full depth is asked about in
/// its turn; where it has, the graph holds as many nodes as the budget allows.
/// No bound is noted twice, and the depth reached is that of the deepest node.
#[verifier::opaque]
pub open spec fn counts_ok(l: WalkLimits, s: WalkState) -> bool {
    &&& s.knn_queries + waiting(s) <= s.head
    &&& !graph::names_reason(s.truncation, TruncationReason::NodeBudget) ==> s.knn_queries
        + waiting(s) == expandable(l, s.nodes, s.head)
    &&& graph::names_reason(s.truncation, TruncationReason::NodeBudget) ==> s.nodes.len()
        == l.max_nodes
    &&& forall|i: int, j: int|
        0 <= i < j < s.truncation.len() ==> (#[trigger] s.truncation[i]).reason != (
        #[trigger] s.truncation[j]).reason
    &&& forall|i: int| 0 <= i < s.nodes.len() ==> (#[trigger] s.nodes[i]).depth <= s.max_depth_reached
    &&& s.max_depth_reached == 0 || exists|i: int|
        0 <= i < s.nodes.len() && (#[trigger] s.nodes[i]).depth == s.max_depth_reached
}

/// How many nodes hang below `p`.
pub open spec fn children(nodes: Seq<NodeText>, p: int) -> nat
    decreases nodes.len(),
{
    if nodes.len() == 0 {
        0
    } else {
        children(nodes.drop_last(), p) + (if nodes.last().parent_id == Some(p) {
            1nat
        } else {
            0
        })
    }
}

/// No node has more children than asked, and one that was not looked at has
/// none.
#[verifier::opaque]
pub open spec fn fan_out_ok(l: WalkLimits, s: WalkState) -> bool {
    &&& forall|p: int| (#[trigger] children(s.nodes, p)) <= l.fan_out
    &&& forall|p: int| p >= s.head ==> (#[trigger] children(s.nodes, p)) == 0
}

/// What the phases say of the node that was asked about, and of the neighbour
/// that is waited for.
pub open spec fn phase_ok(l: WalkLimits, o: Origin, s: WalkState) -> bool {
    match s.phase {
        PhaseState::Querying { parent } => {
            &&& parent == s.head - 1
            &&& 0 <= parent
            &&& s.nodes[parent].depth < l.depth
            &&& children(s.nodes, parent) == 0
            &&& l.fan_out > 0
        },
        PhaseState::Scanning { parent, rest, added } => {
            &&& parent == s.head - 1
            &&& 0 <= parent
            &&& s.nodes[parent].depth < l.depth
            &&& children(s.nodes, parent) == added
            &&& added <= l.fan_out
        },
        PhaseState::Fetching { parent, candidate, rest, added } => {
            &&& parent == s.head - 1
            &&& 0 <= parent
            &&& s.nodes[parent].depth < l.depth
            &&& children(s.nodes, parent) == added
            &&& added < l.fan_out
            &&& s.nodes.len() < l.max_nodes
            &&& s.visited.contains(candidate.chunk_id)
            &&& forall|i: int|
                0 <= i < s.nodes.len() ==> (#[trigger] s.nodes[i]).chunk_id != candidate.chunk_id
            &&& candidate.result.path != o.start_path
            &&& !o.excluded.contains(candidate.result.path)
            &&& !candidate.similarity.below(l.min_similarity)
            &&& l.dedup_by_path ==> s.blocked.contains(candidate.result.path) && forall|i: int|
                o.seeds <= i < s.nodes.len() ==> (#[trigger] s.nodes[i]).path
                    != candidate.result.path
        },
        PhaseState::Idle => true,
        PhaseState::Finished => l.fan_out == 0 || s.head == s.nodes.len(),
    }
}

/// What holds of a walk at every moment.
pub open spec fn sound(l: WalkLimits, o: Origin, s: WalkState) -> bool {
    &&& tree_ok(l, o, s)
    &&& breadth_first(o, s)
    &&& ids_ok(o, s)
    &&& filters_ok(l, o, s)
    &&& counts_ok(l, s)
    &&& fan_out_ok(l, s)
    &&& phase_ok(l, o, s)
}

proof fn lemma_no_children(nodes: Seq<NodeText>, p: int)
    requires
        forall|i: int| 0 <= i < nodes.len() ==> (#[trigger] nodes[i]).parent_id != Some(p),
    ensures
        children(nodes, p) == 0,
    decreases nodes.len(),
{
    if nodes.len() > 0 {
        assert(nodes.last() == nodes[nodes.len() - 1]);
        assert forall|i: int| 0 <= i < nodes.drop_last().len() implies (
        #[trigger] nodes.drop_last()[i]).parent_id != Some(p) by {
            assert(nodes.drop_last()[i] == nodes[i]);
        }
        lemma_no_children(nodes.drop_last(), p);
    }
}

/// The origin of a walk.
pub open spec fn origin_of(start_path: Seq<char>, seeds: Seq<Seed>, o: GraphOptions) -> Origin {
    Origin {
        start_path,
        excluded: text::texts(o.exclude_paths@).to_set(),
        seeds: seed_nodes(o.seed_strategy, seeds.len(), limits_of(o).max_nodes),
    }
}

/// A walk starts sound.
pub proof fn starting_is_sound(
    start_path: Seq<char>,
    seeds: Seq<Seed>,
    more_chunks: bool,
    o: GraphOptions,
)
    requires
        seeds.len() > 0,
    ensures
        sound(
            limits_of(o),
            origin_of(start_path, seeds, o),
            started(start_path, seeds, more_chunks, o),
        ),
{
    reveal(tree_ok);
    reveal(breadth_first);
    reveal(ids_ok);
    reveal(filters_ok);
    reveal(counts_ok);
    reveal(fan_out_ok);
    let l = limits_of(o);
    let origin = origin_of(start_path, seeds, o);
    let s = started(start_path, seeds, more_chunks, o);
    assert forall|i: int| 0 <= i < s.nodes.len() implies s.visited.contains(
        (#[trigger] s.nodes[i]).chunk_id,
    ) by {
        assert(s.nodes[i].chunk_id == seeds[i].chunk_id);
    }
    assert forall|p: int| (#[trigger] children(s.nodes, p)) == 0 by {
        lemma_no_children(s.nodes, p);
    }
    if graph::names_reason(s.truncation, TruncationReason::NodeBudget) {
        let k = choose|k: int|
            0 <= k < s.truncation.len() && (#[trigger] s.truncation[k]).reason
                == TruncationReason::NodeBudget;
        assert(seeds_cut(o.seed_strategy, seeds.len(), l.max_nodes));
    }
}

proof fn lemma_noted(t: Seq<TruncationText>, entry: TruncationText)
    requires
        forall|i: int, j: int|
            0 <= i < j < t.len() ==> (#[trigger] t[i]).reason != (#[trigger] t[j]).reason,
    ensures
        ({
            let r = graph::noted(t, entry);
            &&& graph::names_reason(r, entry.reason)
            &&& forall|i: int, j: int|
                0 <= i < j < r.len() ==> (#[trigger] r[i]).reason != (#[trigger] r[j]).reason
        }),
{
    let r = graph::noted(t, entry);
    if !graph::names_reason(t, entry.reason) {
        assert(r[t.len() as int].reason == entry.reason);
    }
}

proof fn lemma_refused_sound(l: WalkLimits, o: Origin, s: WalkState)
    requires
        sound(l, o, s),
        s.nodes.len() >= l.max_nodes,
    ensures
        sound(l, o, refused(l, s)),
        graph::names_reason(refused(l, s).truncation, TruncationReason::NodeBudget),
{
    reveal(tree_ok);
    reveal(breadth_first);
    reveal(ids_ok);
    reveal(filters_ok);
    reveal(counts_ok);
    reveal(fan_out_ok);
    let entry = TruncationText {
        reason: TruncationReason::NodeBudget,
        limit: l.max_nodes,
        detail: graph::node_budget_text(l.max_nodes as nat),
    };
    lemma_noted(s.truncation, entry);
}

/// The walk with one more node behind it.
pub open spec fn past(s: WalkState) -> WalkState {
    WalkState { head: s.head + 1, ..s }
}

pub(crate) proof fn lemma_past_sound(l: WalkLimits, o: Origin, s: WalkState)
    requires
        sound(l, o, s),
        s.phase is Idle,
        s.head < s.nodes.len(),
        s.nodes[s.head as int].depth >= l.depth || graph::names_reason(
            s.truncation,
            TruncationReason::NodeBudget,
        ),
    ensures
        sound(l, o, past(s)),
{
    reveal(tree_ok);
    reveal(breadth_first);
    reveal(ids_ok);
    reveal(filters_ok);
    reveal(counts_ok);
    reveal(fan_out_ok);
    let t = past(s);
    assert(tree_ok(l, o, t));
    assert(expandable(l, t.nodes, t.head) == expandable(l, s.nodes, s.head) + (
    if s.nodes[s.head as int].depth < l.depth {
        1nat
    } else {
        0
    }));
}

proof fn lemma_querying_sound(l: WalkLimits, o: Origin, s: WalkState)
    requires
        sound(l, o, s),
        s.phase is Idle,
        s.head < s.nodes.len(),
        s.nodes[s.head as int].depth < l.depth,
        s.nodes.len() < l.max_nodes,
        l.fan_out > 0,
    ensures
        sound(
            l,
            o,
            (WalkState {
                head: s.head + 1,
                phase: PhaseState::Querying { parent: s.head as int },
                ..s
            }),
        ),
{
    reveal(tree_ok);
    reveal(breadth_first);
    reveal(ids_ok);
    reveal(filters_ok);
    reveal(counts_ok);
    reveal(fan_out_ok);
    let t = WalkState {
        head: s.head + 1,
        phase: PhaseState::Querying { parent: s.head as int },
        ..s
    };
    assert(tree_ok(l, o, t));
    assert(children(s.nodes, s.head as int) == 0);
    assert(expandable(l, t.nodes, t.head) == expandable(l, s.nodes, s.head) + 1);
}

proof fn lemma_taken_up_filters(l: WalkLimits, o: Origin, s: WalkState, c: NeighbourText)
    requires
        filters_ok(l, o, s),
    ensures
        filters_ok(l, o, taken_up(l, s, c)),
{
    reveal(filters_ok);
    let t = taken_up(l, s, c);
    assert(forall|p: Seq<char>| s.blocked.contains(p) ==> t.blocked.contains(p));
    assert(t.nodes == s.nodes);
}

proof fn lemma_taken_up_phase(
    l: WalkLimits,
    o: Origin,
    s: WalkState,
    parent: int,
    rest: Seq<NeighbourText>,
    added: nat,
)
    requires
        ids_ok(o, s),
        filters_ok(l, o, s),
        phase_ok(l, o, s),
        s.phase == (PhaseState::Scanning { parent, rest, added }),
        rest.len() > 0,
        added < l.fan_out,
        !dropped(l, s, rest[0]),
        s.nodes.len() < l.max_nodes,
    ensures
        phase_ok(l, o, fetching(l, s, parent, rest, added)),
{
    reveal(ids_ok);
    reveal(filters_ok);
    let c = rest[0];
    let t = fetching(l, s, parent, rest, added);
    assert(t.nodes == s.nodes);
    assert(t.visited.contains(c.chunk_id));
    assert forall|i: int| 0 <= i < t.nodes.len() implies (#[trigger] t.nodes[i]).chunk_id
        != c.chunk_id by {
        assert(s.visited.contains(s.nodes[i].chunk_id));
    }
    assert(!o.excluded.contains(c.result.path)) by {
        if o.excluded.contains(c.result.path) {
            assert(s.blocked.contains(c.result.path));
        }
    }
    if l.dedup_by_path {
        assert(t.blocked.contains(c.result.path));
        assert forall|i: int| o.seeds <= i < t.nodes.len() implies (#[trigger] t.nodes[i]).path
            != c.result.path by {
            assert(s.blocked.contains(s.nodes[i].path));
        }
    }
}

proof fn lemma_fetching_sound(
    l: WalkLimits,
    o: Origin,
    s: WalkState,
    parent: int,
    rest: Seq<NeighbourText>,
    added: nat,
)
    requires
        sound(l, o, s),
        s.phase == (PhaseState::Scanning { parent, rest, added }),
        rest.len() > 0,
        added < l.fan_out,
        !dropped(l, s, rest[0]),
        s.nodes.len() < l.max_nodes,
    ensures
        sound(l, o, fetching(l, s, parent, rest, added)),
{
    reveal(tree_ok);
    reveal(breadth_first);
    reveal(ids_ok);
    reveal(counts_ok);
    reveal(fan_out_ok);
    reveal(filters_ok);
    let t = fetching(l, s, parent, rest, added);
    lemma_taken_up_filters(l, o, s, rest[0]);
    lemma_taken_up_phase(l, o, s, parent, rest, added);
    assert(t.nodes == s.nodes);
    assert(tree_ok(l, o, t));
    assert(breadth_first(o, t));
    assert(ids_ok(o, t)) by {
        assert(forall|i: i64| s.visited.contains(i) ==> t.visited.contains(i));
    }
    assert(filters_ok(l, o, t));
    assert(counts_ok(l, t));
    assert(fan_out_ok(l, t));
}

pub(crate) proof fn lemma_other_phase(l: WalkLimits, o: Origin, s: WalkState, phase: PhaseState)
    requires
        sound(l, o, s),
        !(s.phase is Querying),
        !(phase is Querying),
        phase_ok(l, o, (WalkState { phase, ..s })),
    ensures
        sound(l, o, (WalkState { phase, ..s })),
{
    reveal(tree_ok);
    reveal(breadth_first);
    reveal(ids_ok);
    reveal(filters_ok);
    reveal(counts_ok);
    reveal(fan_out_ok);
    let t = WalkState { phase, ..s };
    assert(waiting(t) == waiting(s));
}

proof fn lemma_head_bound(l: WalkLimits, o: Origin, s: WalkState)
    requires
        tree_ok(l, o, s),
    ensures
        s.head <= s.nodes.len() <= l.max_nodes,
        o.seeds <= s.nodes.len(),
{
    reveal(tree_ok);
}

/// Moving on to the next question keeps a walk sound, and ends in a question or
/// at the end.
pub proof fn settling_is_sound(l: WalkLimits, o: Origin, s: WalkState)
    requires
        sound(l, o, s),
    ensures
        sound(l, o, settled(l, s)),
        settled(l, s).phase is Querying || settled(l, s).phase is Fetching || settled(
            l,
            s,
        ).phase is Finished,
    decreases
            s.nodes.len() - s.head,
            match s.phase {
                PhaseState::Scanning { parent, rest, added } => rest.len() + 1,
                _ => 0,
            },
{
    lemma_head_bound(l, o, s);
    match s.phase {
        PhaseState::Scanning { parent, rest, added } => {
            if rest.len() == 0 || added >= l.fan_out {
                lemma_other_phase(l, o, s, PhaseState::Idle);
                settling_is_sound(l, o, WalkState { phase: PhaseState::Idle, ..s });
            } else if dropped(l, s, rest[0]) {
                lemma_other_phase(
                    l,
                    o,
                    s,
                    PhaseState::Scanning { parent, rest: rest.skip(1), added },
                );
                settling_is_sound(
                    l,
                    o,
                    WalkState {
                        phase: PhaseState::Scanning { parent, rest: rest.skip(1), added },
                        ..s
                    },
                );
            } else if s.nodes.len() >= l.max_nodes {
                lemma_refused_sound(l, o, s);
                lemma_other_phase(l, o, refused(l, s), PhaseState::Idle);
                settling_is_sound(l, o, WalkState { phase: PhaseState::Idle, ..refused(l, s) });
            } else {
                lemma_fetching_sound(l, o, s, parent, rest, added);
            }
        },
        PhaseState::Idle => {
            if l.fan_out == 0 || s.head >= s.nodes.len() {
                lemma_other_phase(l, o, s, PhaseState::Finished);
            } else if s.nodes[s.head as int].depth >= l.depth {
                lemma_past_sound(l, o, s);
                settling_is_sound(l, o, past(s));
            } else if s.nodes.len() >= l.max_nodes {
                lemma_refused_sound(l, o, s);
                lemma_past_sound(l, o, refused(l, s));
                settling_is_sound(l, o, past(refused(l, s)));
                assert(past(refused(l, s)) == WalkState { head: s.head + 1, ..refused(l, s) });
            } else {
                lemma_querying_sound(l, o, s);
            }
        },
        _ => {},
    }
}

/// Taking an answer about neighbours keeps a walk sound.
pub proof fn answering_is_sound(
    l: WalkLimits,
    o: Origin,
    s: WalkState,
    neighbours: Seq<NeighbourText>,
)
    requires
        sound(l, o, s),
    ensures
        sound(l, o, answered(s, neighbours)),
{
    reveal(tree_ok);
    reveal(breadth_first);
    reveal(ids_ok);
    reveal(counts_ok);
    reveal(fan_out_ok);
    reveal(filters_ok);
}

proof fn lemma_children_push(nodes: Seq<NodeText>, n: NodeText, p: int)
    ensures
        children(nodes.push(n), p) == children(nodes, p) + (if n.parent_id == Some(p) {
            1nat
        } else {
            0
        }),
{
    assert(nodes.push(n).drop_last() == nodes);
}

proof fn lemma_expandable_prefix(l: WalkLimits, a: Seq<NodeText>, b: Seq<NodeText>, n: nat)
    requires
        n <= a.len(),
        n <= b.len(),
        forall|i: int| 0 <= i < n ==> a[i] == b[i],
    ensures
        expandable(l, a, n) == expandable(l, b, n),
    decreases n,
{
    if n > 0 {
        lemma_expandable_prefix(l, a, b, (n - 1) as nat);
    }
}

/// What a walk that waits for an embedding says of its parent, as far as its
/// shape goes.
spec fn growing(l: WalkLimits, s: WalkState, parent: int, n: NodeText) -> bool {
    &&& 0 <= parent == s.head - 1
    &&& s.head <= s.nodes.len() < l.max_nodes
    &&& s.nodes[parent].depth < l.depth
    &&& n.node_id == s.nodes.len()
    &&& n.parent_id == Some(parent)
    &&& n.depth == s.nodes[parent].depth + 1
}

proof fn lemma_grown_tree(l: WalkLimits, o: Origin, s: WalkState, t: WalkState, parent: int, n: NodeText)
    requires
        tree_ok(l, o, s),
        growing(l, s, parent, n),
        t.nodes == s.nodes.push(n),
        t.head == s.head,
    ensures
        tree_ok(l, o, t),
{
    reveal(tree_ok);
    assert forall|i: int| o.seeds <= i < t.nodes.len() implies {
        let m = #[trigger] t.nodes[i];
        &&& m.parent_id matches Some(p) && 0 <= p < i && p < t.head && m.depth == t.nodes[p].depth
            + 1
        &&& m.depth <= l.depth
    } by {
        if i < s.nodes.len() {
            assert(t.nodes[i] == s.nodes[i]);
            let p = s.nodes[i].parent_id->0;
            assert(t.nodes[p] == s.nodes[p]);
        } else {
            assert(t.nodes[i] == n);
            assert(t.nodes[parent] == s.nodes[parent]);
        }
    }
}

proof fn lemma_grown_order(l: WalkLimits, o: Origin, s: WalkState, t: WalkState, parent: int, n: NodeText)
    requires
        tree_ok(l, o, s),
        breadth_first(o, s),
        growing(l, s, parent, n),
        t.nodes == s.nodes.push(n),
    ensures
        breadth_first(o, t),
{
    reveal(tree_ok);
    reveal(breadth_first);
    assert forall|i: int, j: int| 0 <= i < j < t.nodes.len() implies (#[trigger] t.nodes[i]).depth
        <= (#[trigger] t.nodes[j]).depth by {
        assert(t.nodes[i] == s.nodes[i]);
        if j < s.nodes.len() {
            assert(t.nodes[j] == s.nodes[j]);
        } else if i >= o.seeds {
            let p = s.nodes[i].parent_id->0;
            if p < parent {
                assert(s.nodes[p].depth <= s.nodes[parent].depth);
            }
        }
    }
    assert forall|i: int, j: int| o.seeds <= i < j < t.nodes.len() implies (
    #[trigger] t.nodes[i]).parent_id->0 <= (#[trigger] t.nodes[j]).parent_id->0 by {
        assert(t.nodes[i] == s.nodes[i]);
        if j < s.nodes.len() {
            assert(t.nodes[j] == s.nodes[j]);
        }
    }
}

proof fn lemma_grown_fan_out(l: WalkLimits, s: WalkState, t: WalkState, parent: int, n: NodeText)
    requires
        fan_out_ok(l, s),
        growing(l, s, parent, n),
        children(s.nodes, parent) < l.fan_out,
        t.nodes == s.nodes.push(n),
        t.head == s.head,
    ensures
        fan_out_ok(l, t),
        children(t.nodes, parent) == children(s.nodes, parent) + 1,
{
    reveal(fan_out_ok);
    assert forall|p: int| (#[trigger] children(t.nodes, p)) <= l.fan_out by {
        lemma_children_push(s.nodes, n, p);
        assert(children(s.nodes, p) <= l.fan_out);
    }
    assert forall|p: int| p >= t.head implies (#[trigger] children(t.nodes, p)) == 0 by {
        lemma_children_push(s.nodes, n, p);
        assert(children(s.nodes, p) == 0);
    }
    lemma_children_push(s.nodes, n, parent);
}

proof fn lemma_grown_counts(l: WalkLimits, s: WalkState, t: WalkState, parent: int, n: NodeText)
    requires
        counts_ok(l, s),
        growing(l, s, parent, n),
        waiting(s) == 0,
        t.nodes == s.nodes.push(n),
        t.head == s.head,
        t.knn_queries == s.knn_queries,
        t.truncation == s.truncation,
        waiting(t) == 0,
        t.max_depth_reached == if n.depth > s.max_depth_reached {
            n.depth
        } else {
            s.max_depth_reached
        },
    ensures
        counts_ok(l, t),
{
    reveal(counts_ok);
    lemma_expandable_prefix(l, s.nodes, t.nodes, s.head);
    assert(t.nodes[s.nodes.len() as int] == n);
    assert forall|i: int| 0 <= i < t.nodes.len() implies (#[trigger] t.nodes[i]).depth
        <= t.max_depth_reached by {
        if i < s.nodes.len() {
            assert(t.nodes[i] == s.nodes[i]);
        }
    }
    if n.depth <= s.max_depth_reached && s.max_depth_reached > 0 {
        let i = choose|i: int|
            0 <= i < s.nodes.len() && (#[trigger] s.nodes[i]).depth == s.max_depth_reached;
        assert(t.nodes[i].depth == t.max_depth_reached);
    }
}

proof fn lemma_grown_filters(
    l: WalkLimits,
    o: Origin,
    s: WalkState,
    t: WalkState,
    c: NeighbourText,
    n: NodeText,
)
    requires
        ids_ok(o, s),
        filters_ok(l, o, s),
        o.seeds <= s.nodes.len(),
        t.nodes == s.nodes.push(n),
        t.visited == s.visited,
        t.blocked == s.blocked,
        n.chunk_id == c.chunk_id,
        n.path == c.result.path,
        n.score == c.similarity,
        s.visited.contains(c.chunk_id),
        forall|i: int| 0 <= i < s.nodes.len() ==> (#[trigger] s.nodes[i]).chunk_id != c.chunk_id,
        c.result.path != o.start_path,
        !o.excluded.contains(c.result.path),
        !c.similarity.below(l.min_similarity),
        l.dedup_by_path ==> s.blocked.contains(c.result.path) && forall|i: int|
            o.seeds <= i < s.nodes.len() ==> (#[trigger] s.nodes[i]).path != c.result.path,
    ensures
        ids_ok(o, t),
        filters_ok(l, o, t),
{
    reveal(ids_ok);
    reveal(filters_ok);
    assert forall|i: int| 0 <= i < s.nodes.len() implies #[trigger] t.nodes[i] == s.nodes[i] by {}
    assert(t.nodes[s.nodes.len() as int] == n);
}

/// Taking an answer about an embedding keeps a walk sound.
pub proof fn embedding_is_sound(l: WalkLimits, o: Origin, s: WalkState, found: bool)
    requires
        sound(l, o, s),
    ensures
        sound(l, o, embedded(s, found)),
{
    let t = embedded(s, found);
    if let PhaseState::Fetching { parent, candidate, rest, added } = s.phase {
        if found {
            lemma_head_bound(l, o, s);
            let n = graph::node_of(
                s.nodes.len() as int,
                Some(parent),
                (s.nodes[parent].depth + 1) as u32,
                candidate.chunk_id,
                candidate.similarity,
                candidate.result,
            );
            assert(t.nodes == s.nodes.push(n));
            assert(growing(l, s, parent, n));
            lemma_grown_tree(l, o, s, t, parent, n);
            lemma_grown_order(l, o, s, t, parent, n);
            lemma_grown_fan_out(l, s, t, parent, n);
            lemma_grown_counts(l, s, t, parent, n);
            lemma_grown_filters(l, o, s, t, candidate, n);
            assert(t.nodes[parent] == s.nodes[parent]);
        } else {
            lemma_other_phase(l, o, s, t.phase);
        }
    }
}

/// A finished walk: no more questions than nodes and no more nodes than the
/// budget. Where the budget has cut nothing, every node above the full depth
/// was asked about; where it has, the budget is full.
pub proof fn finished_walks_are_bounded(l: WalkLimits, o: Origin, s: WalkState)
    requires
        sound(l, o, s),
        s.phase is Finished,
    ensures
        s.knn_queries <= s.nodes.len() <= l.max_nodes,
        l.fan_out > 0 && !graph::names_reason(s.truncation, TruncationReason::NodeBudget)
            ==> s.knn_queries == expandable(l, s.nodes, s.nodes.len()),
        graph::names_reason(s.truncation, TruncationReason::NodeBudget) ==> s.nodes.len()
            == l.max_nodes,
{
    reveal(tree_ok);
    reveal(counts_ok);
}

/// Where no two seeds share a chunk, no two nodes do.
pub proof fn chunks_are_unique(l: WalkLimits, o: Origin, s: WalkState)
    requires
        sound(l, o, s),
        forall|i: int, j: int|
            0 <= i < j < o.seeds ==> (#[trigger] s.nodes[i]).chunk_id != (
            #[trigger] s.nodes[j]).chunk_id,
    ensures
        forall|i: int, j: int|
            0 <= i < j < s.nodes.len() ==> (#[trigger] s.nodes[i]).chunk_id != (
            #[trigger] s.nodes[j]).chunk_id,
{
    reveal(ids_ok);
}

// ---------------------------------------------------------------------------
// Walks with different budgets
// ---------------------------------------------------------------------------

/// The walk after its next question and the answer to it, in an index where `ask`
/// gives the neighbours of a node and `has` says which chunks have an embedding.
pub open spec fn stepped(
    l: WalkLimits,
    s: WalkState,
    ask: spec_fn(NodeText) -> Seq<NeighbourText>,
    has: spec_fn(i64) -> bool,
) -> WalkState {
    let t = settled(l, s);
    match t.phase {
        PhaseState::Querying { parent } => answered(t, ask(t.nodes[parent])),
        PhaseState::Fetching { parent, candidate, rest, added } => embedded(
            t,
            has(candidate.chunk_id),
        ),
        _ => t,
    }
}

/// The walk after `n` questions and their answers.
pub open spec fn walked(
    l: WalkLimits,
    s: WalkState,
    ask: spec_fn(NodeText) -> Seq<NeighbourText>,
    has: spec_fn(i64) -> bool,
    n: nat,
) -> WalkState
    decreases n,
{
    if n == 0 {
        s
    } else {
        stepped(l, walked(l, s, ask, has, (n - 1) as nat), ask, has)
    }
}

/// Whether the budget has cut the walk.
pub open spec fn out_of_budget(s: WalkState) -> bool {
    graph::names_reason(s.truncation, TruncationReason::NodeBudget)
}

pub(crate) proof fn lemma_refused_is_out(l: WalkLimits, s: WalkState)
    ensures
        out_of_budget(refused(l, s)),
{
    let r = refused(l, s).truncation;
    if !out_of_budget(s) {
        assert(r[s.truncation.len() as int].reason == TruncationReason::NodeBudget);
    }
}

pub(crate) proof fn lemma_settled_keeps(l: WalkLimits, s: WalkState)
    ensures
        settled(l, s).nodes == s.nodes,
        out_of_budget(s) ==> out_of_budget(settled(l, s)),
    decreases
            s.nodes.len() - s.head,
            match s.phase {
                PhaseState::Scanning { parent, rest, added } => rest.len() + 1,
                _ => 0,
            },
{
    match s.phase {
        PhaseState::Scanning { parent, rest, added } => {
            if rest.len() == 0 || added >= l.fan_out {
                lemma_settled_keeps(l, WalkState { phase: PhaseState::Idle, ..s });
            } else if dropped(l, s, rest[0]) {
                lemma_settled_keeps(
                    l,
                    WalkState {
                        phase: PhaseState::Scanning { parent, rest: rest.skip(1), added },
                        ..s
                    },
                );
            } else if s.nodes.len() >= l.max_nodes {
                lemma_settled_keeps(l, WalkState { phase: PhaseState::Idle, ..refused(l, s) });
            }
        },
        PhaseState::Idle => {
            if l.fan_out == 0 || s.head >= s.nodes.len() {
            } else if s.nodes[s.head as int].depth >= l.depth {
                lemma_settled_keeps(l, WalkState { head: s.head + 1, ..s });
            } else if s.nodes.len() >= l.max_nodes {
                lemma_settled_keeps(l, WalkState { head: s.head + 1, ..refused(l, s) });
            }
        },
        _ => {},
    }
}

/// Two walks whose limits differ in the budget only, the first not above the second.
pub open spec fn tighter(small: WalkLimits, large: WalkLimits) -> bool {
    &&& small.max_nodes <= large.max_nodes
    &&& small == (WalkLimits { max_nodes: small.max_nodes, ..large })
}

proof fn lemma_settled_alike(small: WalkLimits, large: WalkLimits, s: WalkState)
    requires
        tighter(small, large),
    ensures
        out_of_budget(settled(small, s)) || settled(small, s) == settled(large, s),
    decreases
            s.nodes.len() - s.head,
            match s.phase {
                PhaseState::Scanning { parent, rest, added } => rest.len() + 1,
                _ => 0,
            },
{
    match s.phase {
        PhaseState::Scanning { parent, rest, added } => {
            if rest.len() == 0 || added >= small.fan_out {
                lemma_settled_alike(small, large, WalkState { phase: PhaseState::Idle, ..s });
            } else if dropped(small, s, rest[0]) {
                lemma_settled_alike(
                    small,
                    large,
                    WalkState {
                        phase: PhaseState::Scanning { parent, rest: rest.skip(1), added },
                        ..s
                    },
                );
            } else if s.nodes.len() >= small.max_nodes {
                lemma_refused_is_out(small, s);
                lemma_settled_keeps(
                    small,
                    WalkState { phase: PhaseState::Idle, ..refused(small, s) },
                );
            }
        },
        PhaseState::Idle => {
            if small.fan_out == 0 || s.head >= s.nodes.len() {
            } else if s.nodes[s.head as int].depth >= small.depth {
                lemma_settled_alike(small, large, WalkState { head: s.head + 1, ..s });
            } else if s.nodes.len() >= small.max_nodes {
                lemma_refused_is_out(small, s);
                lemma_settled_keeps(
                    small,
                    WalkState { head: s.head + 1, ..refused(small, s) },
                );
            }
        },
        _ => {},
    }
}

pub(crate) proof fn lemma_stepped_sound(
    l: WalkLimits,
    o: Origin,
    s: WalkState,
    ask: spec_fn(NodeText) -> Seq<NeighbourText>,
    has: spec_fn(i64) -> bool,
)
    requires
        sound(l, o, s),
    ensures
        sound(l, o, stepped(l, s, ask, has)),
{
    settling_is_sound(l, o, s);
    let t = settled(l, s);
    match t.phase {
        PhaseState::Querying { parent } => {
            answering_is_sound(l, o, t, ask(t.nodes[parent]));
        },
        PhaseState::Fetching { parent, candidate, rest, added } => {
            embedding_is_sound(l, o, t, has(candidate.chunk_id));
        },
        _ => {},
    }
}

proof fn lemma_stepped_grows(
    l: WalkLimits,
    s: WalkState,
    ask: spec_fn(NodeText) -> Seq<NeighbourText>,
    has: spec_fn(i64) -> bool,
)
    ensures
        s.nodes.is_prefix_of(stepped(l, s, ask, has).nodes),
        out_of_budget(settled(l, s)) == out_of_budget(stepped(l, s, ask, has)),
{
    lemma_settled_keeps(l, s);
}

/// A walk that the budget has cut holds as many nodes as it ever will.
proof fn lemma_out_is_full(
    l: WalkLimits,
    o: Origin,
    s: WalkState,
    ask: spec_fn(NodeText) -> Seq<NeighbourText>,
    has: spec_fn(i64) -> bool,
)
    requires
        sound(l, o, s),
        out_of_budget(settled(l, s)),
    ensures
        stepped(l, s, ask, has).nodes == s.nodes,
{
    settling_is_sound(l, o, s);
    lemma_settled_keeps(l, s);
    reveal(counts_ok);
}

/// The walk with the tighter budget is the other one, or is cut and holds the first of
/// its nodes.
pub open spec fn keeps_up(small: WalkState, large: WalkState) -> bool {
    if out_of_budget(small) {
        small.nodes.is_prefix_of(large.nodes)
    } else {
        small == large
    }
}

proof fn lemma_stepped_keeps_up(
    small: WalkLimits,
    large: WalkLimits,
    o: Origin,
    s: WalkState,
    t: WalkState,
    ask: spec_fn(NodeText) -> Seq<NeighbourText>,
    has: spec_fn(i64) -> bool,
)
    requires
        tighter(small, large),
        sound(small, o, s),
        keeps_up(s, t),
    ensures
        keeps_up(stepped(small, s, ask, has), stepped(large, t, ask, has)),
{
    lemma_settled_keeps(small, s);
    lemma_stepped_grows(small, s, ask, has);
    lemma_stepped_grows(large, t, ask, has);
    if !out_of_budget(s) {
        lemma_settled_alike(small, large, s);
    }
    if out_of_budget(settled(small, s)) {
        lemma_out_is_full(small, o, s, ask, has);
    }
}

/// The options with another node budget.
pub open spec fn with_budget(o: GraphOptions, budget: u32) -> GraphOptions {
    GraphOptions { max_nodes: budget, ..o }
}

proof fn lemma_started_keeps_up(
    start_path: Seq<char>,
    seeds: Seq<Seed>,
    more_chunks: bool,
    o: GraphOptions,
    budget: u32,
)
    requires
        budget <= o.max_nodes,
    ensures
        keeps_up(
            started(start_path, seeds, more_chunks, with_budget(o, budget)),
            started(start_path, seeds, more_chunks, o),
        ),
{
    let small = started(start_path, seeds, more_chunks, with_budget(o, budget));
    let large = started(start_path, seeds, more_chunks, o);
    if seeds_cut(o.seed_strategy, seeds.len(), limits_of(with_budget(o, budget)).max_nodes) {
        assert(small.truncation.last().reason == TruncationReason::NodeBudget);
        assert(out_of_budget(small));
    } else {
        assert(small.nodes =~= large.nodes);
        assert(small.visited =~= large.visited);
        assert(small == large);
    }
}

/// At every moment, a walk with a smaller node budget has found the first of the nodes
/// that the walk with the larger one has found from the same answers; as long as the
/// budget has cut nothing, it has found them all.
pub proof fn a_smaller_budget_finds_a_prefix(
    start_path: Seq<char>,
    seeds: Seq<Seed>,
    more_chunks: bool,
    o: GraphOptions,
    budget: u32,
    ask: spec_fn(NodeText) -> Seq<NeighbourText>,
    has: spec_fn(i64) -> bool,
    n: nat,
)
    requires
        seeds.len() > 0,
        budget <= o.max_nodes,
    ensures
        ({
            let less = with_budget(o, budget);
            let small = walked(
                limits_of(less),
                started(start_path, seeds, more_chunks, less),
                ask,
                has,
                n,
            );
            let large = walked(
                limits_of(o),
                started(start_path, seeds, more_chunks, o),
                ask,
                has,
                n,
            );
            &&& sound(limits_of(less), origin_of(start_path, seeds, less), small)
            &&& small.nodes.is_prefix_of(large.nodes)
            &&& !out_of_budget(small) ==> small == large
        }),
    decreases n,
{
    let less = with_budget(o, budget);
    let origin = origin_of(start_path, seeds, less);
    let first = started(start_path, seeds, more_chunks, less);
    let other = started(start_path, seeds, more_chunks, o);
    if n == 0 {
        starting_is_sound(start_path, seeds, more_chunks, less);
        lemma_started_keeps_up(start_path, seeds, more_chunks, o, budget);
    } else {
        let m = (n - 1) as nat;
        a_smaller_budget_finds_a_prefix(start_path, seeds, more_chunks, o, budget, ask, has, m);
        let s = walked(limits_of(less), first, ask, has, m);
        let t = walked(limits_of(o), other, ask, has, m);
        lemma_stepped_sound(limits_of(less), origin, s, ask, has);
        lemma_stepped_keeps_up(limits_of(less), limits_of(o), origin, s, t, ask, has);
    }
}

proof fn lemma_finished_stays(
    l: WalkLimits,
    s: WalkState,
    ask: spec_fn(NodeText) -> Seq<NeighbourText>,
    has: spec_fn(i64) -> bool,
    n: nat,
    m: nat,
)
    requires
        walked(l, s, ask, has, n).phase is Finished,
        n <= m,
    ensures
        walked(l, s, ask, has, m) == walked(l, s, ask, has, n),
    decreases m,
{
    if n < m {
        lemma_finished_stays(l, s, ask, has, n, (m - 1) as nat);
    }
}

/// Of two finished walks over the same index, the one with the smaller node budget
/// holds the first of the other's nodes. Where its budget has cut nothing, it holds the
/// same nodes, and the two end alike.
pub proof fn a_smaller_budget_yields_a_prefix(
    start_path: Seq<char>,
    seeds: Seq<Seed>,
    more_chunks: bool,
    o: GraphOptions,
    budget: u32,
    ask: spec_fn(NodeText) -> Seq<NeighbourText>,
    has: spec_fn(i64) -> bool,
    n: nat,
    m: nat,
)
    requires
        seeds.len() > 0,
        budget <= o.max_nodes,
        walked(
            limits_of(with_budget(o, budget)),
            started(start_path, seeds, more_chunks, with_budget(o, budget)),
            ask,
            has,
            n,
        ).phase is Finished,
        walked(
            limits_of(o),
            started(start_path, seeds, more_chunks, o),
            ask,
            has,
            m,
        ).phase is Finished,
    ensures
        ({
            let less = with_budget(o, budget);
            let small = walked(
                limits_of(less),
                started(start_path, seeds, more_chunks, less),
                ask,
                has,
                n,
            );
            let large = walked(
                limits_of(o),
                started(start_path, seeds, more_chunks, o),
                ask,
                has,
                m,
            );
            &&& small.nodes.is_prefix_of(large.nodes)
            &&& !out_of_budget(small) ==> small == large
        }),
{
    let less = with_budget(o, budget);
    let first = started(start_path, seeds, more_chunks, less);
    let other = started(start_path, seeds, more_chunks, o);
    let most = if n < m {
        m
    } else {
        n
    };
    lemma_finished_stays(limits_of(less), first, ask, has, n, most);
    lemma_finished_stays(limits_of(o), other, ask, has, m, most);
    a_smaller_budget_finds_a_prefix(
        start_path,
        seeds,
        more_chunks,
        o,
        budget,
        ask,
        has,
        most,
    );
}

// ---------------------------------------------------------------------------
// The executable walk
// ---------------------------------------------------------------------------

/// `r` holds the seeds that were read, up to the cap, and whether more were read.
pub open spec fn seeds_capped<A>(read: Seq<A>, cap: u32, r: (Vec<A>, bool)) -> bool {
    &&& r.1 == (read.len() > cap)
    &&& r.0@ == (if r.1 {
        read.take(cap as int)
    } else {
        read
    })
}

/// The chunks to start from, out of a read that asked for one more than the cap
/// allows: those within the cap, and whether the document has more.
pub fn cap_seeds<A>(read: Vec<A>, cap: u32) -> (r: (Vec<A>, bool))
    ensures
        seeds_capped(read@, cap, r),
        r.1 == (read@.len() > cap),
        r.0@ == (if r.1 {
            read@.take(cap as int)
        } else {
            read@
        }),
{
    let mut seeds = read;
    if seeds.len() > cap as usize {
        seeds.truncate(cap as usize);
        (seeds, true)
    } else {
        (seeds, false)
    }
}

/// What the walk asks next.
#[derive(Debug, Clone, Copy, PartialEq, Eq, Structural)]
pub enum Question {
    /// The neighbours of a node, `fetch_k` of them.
    Neighbours { node_id: usize, depth: u32, fetch_k: u32 },
    /// Whether a chunk has an embedding.
    Embedding { chunk_id: i64 },
    /// Nothing.
    Done,
}

#[derive(Debug)]
enum Phase {
    Idle,
    Querying { parent: usize },
    Scanning { parent: usize, candidates: Vec<Neighbour>, next: usize, added: u32 },
    Fetching { parent: usize, candidates: Vec<Neighbour>, next: usize, added: u32 },
    Finished,
}

/// The neighbours of a list as characters.
pub open spec fn neighbour_texts(v: Seq<Neighbour>) -> Seq<NeighbourText> {
    Seq::new(v.len(), |i: int| v[i]@)
}

/// The nodes of a list as characters.
pub open spec fn node_texts(v: Seq<GraphNode>) -> Seq<NodeText> {
    Seq::new(v.len(), |i: int| v[i]@)
}

impl Phase {
    spec fn state(self) -> PhaseState {
        match self {
            Phase::Idle => PhaseState::Idle,
            Phase::Querying { parent } => PhaseState::Querying { parent: parent as int },
            Phase::Scanning { parent, candidates, next, added } => PhaseState::Scanning {
                parent: parent as int,
                rest: neighbour_texts(candidates@).skip(next as int),
                added: added as nat,
            },
            Phase::Fetching { parent, candidates, next, added } => PhaseState::Fetching {
                parent: parent as int,
                candidate: candidates@[next as int]@,
                rest: neighbour_texts(candidates@).skip(next + 1),
                added: added as nat,
            },
            Phase::Finished => PhaseState::Finished,
        }
    }

    spec fn in_range(self) -> bool {
        match self {
            Phase::Scanning { parent, candidates, next, added } => next <= candidates@.len(),
            Phase::Fetching { parent, candidates, next, added } => next < candidates@.len(),
            _ => true,
        }
    }
}

/// A walk from one document.
pub struct GraphWalk {
    limits: WalkLimits,
    start_path: String,
    seeds_used: u32,
    nodes: Vec<GraphNode>,
    head: usize,
    visited: Vec<i64>,
    blocked: Vec<String>,
    truncation: Vec<GraphTruncation>,
    knn_queries: u32,
    max_depth_reached: u32,
    phase: Phase,
    origin: Ghost<Origin>,
}

impl View for GraphWalk {
    type V = WalkState;

    closed spec fn view(&self) -> WalkState {
        WalkState {
            nodes: node_texts(self.nodes@),
            head: self.head as nat,
            visited: self.visited@.to_set(),
            blocked: text::texts(self.blocked@).to_set(),
            truncation: graph::truncation_texts(self.truncation@),
            knn_queries: self.knn_queries as nat,
            max_depth_reached: self.max_depth_reached,
            phase: self.phase.state(),
        }
    }
}

/// Whether an id is on a list.
fn seen(ids: &Vec<i64>, id: i64) -> (r: bool)
    ensures
        r == ids@.to_set().contains(id),
{
    let mut i: usize = 0;
    while i < ids.len()
        invariant
            i <= ids@.len(),
            forall|k: int| 0 <= k < i ==> ids@[k] != id,
        decreases ids@.len() - i,
    {
        if ids[i] == id {
            assert(ids@[i as int] == id);
            return true;
        }
        i += 1;
    }
    false
}

/// How many neighbours are asked for: twice as many as may be added, so that
/// some can be dropped.
pub open spec fn asked_for(fan_out: u32) -> u32 {
    if fan_out * 2 > u32::MAX {
        u32::MAX
    } else {
        (fan_out * 2) as u32
    }
}

/// What a walk in a phase asks.
pub open spec fn question(l: WalkLimits, s: WalkState) -> Question {
    match s.phase {
        PhaseState::Querying { parent } => Question::Neighbours {
            node_id: parent as usize,
            depth: s.nodes[parent].depth,
            fetch_k: asked_for(l.fan_out),
        },
        PhaseState::Fetching { parent, candidate, rest, added } => Question::Embedding {
            chunk_id: candidate.chunk_id,
        },
        _ => Question::Done,
    }
}

impl GraphWalk {
    /// The limits of the walk.
    pub closed spec fn bounds(&self) -> WalkLimits {
        self.limits
    }

    /// Where the walk has started.
    pub closed spec fn begun(&self) -> Origin {
        self.origin@
    }

    /// How many chunks of the document were read.
    pub closed spec fn chunks_read(&self) -> u32 {
        self.seeds_used
    }

    /// The walk is sound, and its budget within the ceiling.
    pub closed spec fn wf(&self) -> bool {
        &&& sound(self.limits, self.origin@, self@)
        &&& self.limits.max_nodes <= MAX_NODES_CEILING
        &&& self.phase.in_range()
        &&& self.start_path@ == self.origin@.start_path
    }

    /// The laws of a sound walk hold of every walk.
    pub proof fn is_sound(&self)
        requires
            self.wf(),
        ensures
            sound(self.bounds(), self.begun(), self@),
    {
    }

    /// Starts a walk from the chunks of a document. `more_chunks` says that the
    /// document has chunks beyond those. A document without chunks is not found.
    pub fn start(
        start_path: &str,
        seeds: &Vec<Seed>,
        more_chunks: bool,
        opts: &GraphOptions,
    ) -> (r: Result<GraphWalk, GraphError>)
        requires
            seeds@.len() <= u32::MAX,
        ensures
            match r {
                Ok(w) => {
                    &&& seeds@.len() > 0
                    &&& w.wf()
                    &&& w@ == started(start_path@, seeds@, more_chunks, *opts)
                    &&& w.bounds() == limits_of(*opts)
                    &&& w.begun() == origin_of(start_path@, seeds@, *opts)
                    &&& w.chunks_read() == seeds@.len()
                },
                Err(GraphError::NotFound { path }) => seeds@.len() == 0 && path@ == start_path@,
                Err(_) => false,
            },
    {
        if seeds.len() == 0 {
            return Err(GraphError::NotFound { path: to_text(start_path) });
        }
        let limits = WalkLimits {
            depth: opts.depth,
            fan_out: opts.fan_out,
            min_similarity: opts.min_similarity,
            dedup_by_path: opts.dedup_by_path,
            max_nodes: clamp_max_nodes(opts.max_nodes),
        };
        let ghost target = started(start_path@, seeds@, more_chunks, *opts);
        let mut truncation: Vec<GraphTruncation> = Vec::new();
        proof {
            assert(graph::truncation_texts(truncation@) == Seq::<TruncationText>::empty());
        }
        if more_chunks {
            let cap = clamp_max_seed_chunks(opts.max_seed_chunks);
            push_truncation(
                &mut truncation,
                TruncationReason::SeedChunks,
                cap,
                seed_cap_detail(opts.seed_strategy, cap),
            );
        }
        let ghost noted_first = graph::truncation_texts(truncation@);
        let (count, watched) = match opts.seed_strategy {
            SeedStrategy::AllChunks => {
                let n: usize = if seeds.len() < limits.max_nodes as usize {
                    seeds.len()
                } else {
                    limits.max_nodes as usize
                };
                if seeds.len() > limits.max_nodes as usize {
                    push_truncation(
                        &mut truncation,
                        TruncationReason::NodeBudget,
                        limits.max_nodes,
                        node_budget_detail(limits.max_nodes),
                    );
                }
                (n, n)
            },
            SeedStrategy::Centroid => {
                if limits.max_nodes == 0 {
                    push_truncation(
                        &mut truncation,
                        TruncationReason::NodeBudget,
                        0,
                        node_budget_detail(0),
                    );
                    (0, seeds.len())
                } else {
                    (1, seeds.len())
                }
            },
        };
        proof {
            assert(!graph::names_reason(noted_first, TruncationReason::NodeBudget));
            assert(graph::truncation_texts(truncation@) == target.truncation);
        }
        let mut nodes: Vec<GraphNode> = Vec::new();
        let mut i: usize = 0;
        while i < count
            invariant
                i <= count <= seeds@.len(),
                nodes@.len() == i,
                forall|k: int| 0 <= k < i ==> (#[trigger] nodes@[k])@ == seed_node(seeds@, k),
            decreases count - i,
        {
            nodes.push(
                make_node(
                    i,
                    None,
                    0,
                    seeds[i].chunk_id,
                    Float32::from_bits(0x3f80_0000),
                    &seeds[i].result,
                ),
            );
            i += 1;
        }
        let mut visited: Vec<i64> = Vec::new();
        let mut j: usize = 0;
        while j < watched
            invariant
                j <= watched <= seeds@.len(),
                visited@.len() == j,
                forall|k: int| 0 <= k < j ==> #[trigger] visited@[k] == seeds@[k].chunk_id,
            decreases watched - j,
        {
            visited.push(seeds[j].chunk_id);
            j += 1;
        }
        let mut blocked = text::copy_texts(&opts.exclude_paths);
        blocked.push(to_text(start_path));
        proof {
            let excluded = text::texts(opts.exclude_paths@);
            let all = text::texts(blocked@);
            assert(all == excluded.push(start_path@));
            assert forall|p: Seq<char>| all.to_set().contains(p) == target.blocked.contains(p) by {
                if all.contains(p) {
                    let k = choose|k: int| 0 <= k < all.len() && all[k] == p;
                    if k < excluded.len() {
                        assert(excluded[k] == p);
                    }
                }
                if excluded.contains(p) {
                    let k = choose|k: int| 0 <= k < excluded.len() && excluded[k] == p;
                    assert(all[k] == p);
                }
                assert(all[excluded.len() as int] == start_path@);
            }
            assert(all.to_set() =~= target.blocked);
            assert forall|id: i64| visited@.to_set().contains(id) == target.visited.contains(id) by {
                if visited@.contains(id) {
                    let k = choose|k: int| 0 <= k < visited@.len() && visited@[k] == id;
                    assert(seeds@[k].chunk_id == id);
                }
                if target.visited.contains(id) {
                    let k = choose|k: int| 0 <= k < watched && (#[trigger] seeds@[k]).chunk_id == id;
                    assert(visited@[k] == id);
                }
            }
            assert(visited@.to_set() =~= target.visited);
            assert(node_texts(nodes@) =~= target.nodes);
            starting_is_sound(start_path@, seeds@, more_chunks, *opts);
        }
        let walk = GraphWalk {
            limits,
            start_path: to_text(start_path),
            seeds_used: seeds.len() as u32,
            nodes,
            head: 0,
            visited,
            blocked,
            truncation,
            knn_queries: 0,
            max_depth_reached: 0,
            phase: Phase::Idle,
            origin: Ghost(origin_of(start_path@, seeds@, *opts)),
        };
        assert(walk@ == target);
        Ok(walk)
    }

    fn refuse(&mut self)
        ensures
            final(self)@ == refused(old(self).limits, old(self)@),
            final(self).limits == old(self).limits,
            final(self).origin == old(self).origin,
            final(self).start_path == old(self).start_path,
            final(self).seeds_used == old(self).seeds_used,
            final(self).phase == old(self).phase,
            final(self).nodes == old(self).nodes,
            final(self).head == old(self).head,
            final(self).visited == old(self).visited,
            final(self).blocked == old(self).blocked,
    {
        let max = self.limits.max_nodes;
        push_truncation(
            &mut self.truncation,
            TruncationReason::NodeBudget,
            max,
            node_budget_detail(max),
        );
    }

    /// Goes through the neighbours that are left, up to the next one whose
    /// embedding is wanted.
    fn scan(&mut self)
        requires
            old(self).wf(),
        ensures
            final(self).wf(),
            final(self).limits == old(self).limits,
            final(self).origin == old(self).origin,
            final(self).seeds_used == old(self).seeds_used,
            settled(final(self).limits, final(self)@) == settled(old(self).limits, old(self)@),
            old(self).phase is Scanning ==> final(self).phase is Idle
                || final(self).phase is Fetching,
            !(old(self).phase is Scanning) ==> final(self).phase == old(self).phase,
    {
        let ghost l = self.limits;
        let ghost o = self.origin@;
        let ghost target = settled(l, self@);
        let ghost first = self@;
        let mut phase = Phase::Idle;
        std::mem::swap(&mut phase, &mut self.phase);
        match phase {
            Phase::Scanning { parent, candidates, next, added } => {
                let ghost all = neighbour_texts(candidates@);
                let mut at: usize = next;
                while at < candidates.len() && added < self.limits.fan_out
                    invariant
                        all == neighbour_texts(candidates@),
                        at <= candidates@.len(),
                        l == self.limits,
                        l == old(self).limits,
                        target == settled(old(self).limits, old(self)@),
                        old(self).phase is Scanning,
                        l.max_nodes <= MAX_NODES_CEILING,
                        o == self.origin@,
                        self.start_path@ == o.start_path,
                        self.phase is Idle,
                        self.seeds_used == old(self).seeds_used,
                        self.origin == old(self).origin,
                        ({
                            let s = WalkState {
                                phase: PhaseState::Scanning {
                                    parent: parent as int,
                                    rest: all.skip(at as int),
                                    added: added as nat,
                                },
                                ..self@
                            };
                            sound(l, o, s) && settled(l, s) == target
                        }),
                    decreases candidates@.len() - at,
                {
                    let c = &candidates[at];
                    let ghost s = WalkState {
                        phase: PhaseState::Scanning {
                            parent: parent as int,
                            rest: all.skip(at as int),
                            added: added as nat,
                        },
                        ..self@
                    };
                    proof {
                        assert(all.skip(at as int)[0] == c@);
                        assert(all.skip(at as int).skip(1) == all.skip(at + 1));
                    }
                    if seen(&self.visited, c.chunk_id) || contains_text(
                        &self.blocked,
                        &c.result.path,
                    ) || c.similarity.less(self.limits.min_similarity) {
                        proof {
                            assert(dropped(l, s, c@));
                            lemma_other_phase(
                                l,
                                o,
                                s,
                                PhaseState::Scanning {
                                    parent: parent as int,
                                    rest: all.skip(at + 1),
                                    added: added as nat,
                                },
                            );
                        }
                        at += 1;
                        continue ;
                    }
                    if self.nodes.len() >= self.limits.max_nodes as usize {
                        proof {
                            assert(!dropped(l, s, c@));
                            lemma_refused_sound(l, o, s);
                            lemma_other_phase(l, o, refused(l, s), PhaseState::Idle);
                        }
                        self.refuse();
                        proof {
                            assert(self@ == WalkState {
                                phase: PhaseState::Idle,
                                ..refused(l, s)
                            });
                        }
                        return ;
                    }
                    proof {
                        assert(!dropped(l, s, c@));
                        lemma_fetching_sound(
                            l,
                            o,
                            s,
                            parent as int,
                            all.skip(at as int),
                            added as nat,
                        );
                    }
                    let ghost visited_before = self.visited@;
                    let ghost blocked_before = text::texts(self.blocked@);
                    self.visited.push(c.chunk_id);
                    if self.limits.dedup_by_path {
                        self.blocked.push(c.result.path.clone());
                    }
                    self.phase = Phase::Fetching { parent, candidates, next: at, added };
                    proof {
                        let t = fetching(l, s, parent as int, all.skip(at as int), added as nat);
                        lemma_push_to_set(visited_before, all[at as int].chunk_id);
                        assert(self@.visited == t.visited);
                        if l.dedup_by_path {
                            lemma_push_to_set(blocked_before, all[at as int].result.path);
                            assert(text::texts(self.blocked@) == blocked_before.push(
                                all[at as int].result.path,
                            ));
                        }
                        assert(self@.blocked == t.blocked);
                        assert(self@ == t);
                    }
                    return ;
                }
                proof {
                    let s = WalkState {
                        phase: PhaseState::Scanning {
                            parent: parent as int,
                            rest: all.skip(at as int),
                            added: added as nat,
                        },
                        ..self@
                    };
                    lemma_other_phase(l, o, s, PhaseState::Idle);
                    assert(self@ == WalkState { phase: PhaseState::Idle, ..s });
                }
            },
            other => {
                self.phase = other;
                assert(self@ == first);
            },
        }
    }

    /// Moves the walk on to its next question.
    pub fn next(&mut self) -> (q: Question)
        requires
            old(self).wf(),
        ensures
            final(self).wf(),
            final(self).bounds() == old(self).bounds(),
            final(self).begun() == old(self).begun(),
            final(self).chunks_read() == old(self).chunks_read(),
            final(self)@ == settled(old(self).bounds(), old(self)@),
            q == question(old(self).bounds(), final(self)@),
    {
        let ghost l = self.limits;
        let ghost o = self.origin@;
        let ghost target = settled(l, self@);
        self.scan();
        loop
            invariant
                self.wf(),
                l == self.limits,
                o == self.origin@,
                self.seeds_used == old(self).seeds_used,
                l == old(self).limits,
                o == old(self).origin@,
                settled(l, self@) == target,
                target == settled(old(self).limits, old(self)@),
                !(self.phase is Scanning),
            decreases self@.nodes.len() - self@.head,
        {
            proof {
                lemma_head_bound(l, o, self@);
                settling_is_sound(l, o, self@);
            }
            match &self.phase {
                Phase::Querying { parent } => {
                    let p = *parent;
                    let depth = self.nodes[p].depth;
                    let fetch_k = if self.limits.fan_out > u32::MAX / 2 {
                        u32::MAX
                    } else {
                        self.limits.fan_out * 2
                    };
                    return Question::Neighbours { node_id: p, depth, fetch_k };
                },
                Phase::Fetching { parent, candidates, next, added } => {
                    return Question::Embedding { chunk_id: candidates[*next].chunk_id };
                },
                Phase::Finished => {
                    return Question::Done;
                },
                _ => {},
            }
            let ghost s = self@;
            if self.limits.fan_out == 0 || self.head >= self.nodes.len() {
                self.phase = Phase::Finished;
                proof {
                    lemma_other_phase(l, o, s, PhaseState::Finished);
                    assert(self@ == WalkState { phase: PhaseState::Finished, ..s });
                }
                return Question::Done;
            }
            let depth = self.nodes[self.head].depth;
            if depth >= self.limits.depth {
                proof {
                    lemma_past_sound(l, o, s);
                }
                self.head += 1;
                assert(self@ == past(s));
            } else if self.nodes.len() >= self.limits.max_nodes as usize {
                proof {
                    lemma_refused_sound(l, o, s);
                    lemma_past_sound(l, o, refused(l, s));
                }
                self.refuse();
                self.head += 1;
                assert(self@ == past(refused(l, s)));
            } else {
                proof {
                    lemma_querying_sound(l, o, s);
                }
                let parent = self.head;
                self.head += 1;
                self.phase = Phase::Querying { parent };
                assert(self@ == WalkState {
                    head: s.head + 1,
                    phase: PhaseState::Querying { parent: s.head as int },
                    ..s
                });
            }
        }
    }

    /// Takes the neighbours of the node that was asked about.
    pub fn neighbours(&mut self, found: Vec<Neighbour>)
        requires
            old(self).wf(),
            old(self)@.phase is Querying,
        ensures
            final(self).wf(),
            final(self).bounds() == old(self).bounds(),
            final(self).begun() == old(self).begun(),
            final(self).chunks_read() == old(self).chunks_read(),
            final(self)@ == answered(old(self)@, neighbour_texts(found@)),
    {
        let ghost s = self@;
        proof {
            answering_is_sound(self.limits, self.origin@, s, neighbour_texts(found@));
            finished_bounds(self.limits, self.origin@, s);
        }
        let parent = match &self.phase {
            Phase::Querying { parent } => *parent,
            _ => 0,
        };
        self.knn_queries += 1;
        self.phase = Phase::Scanning { parent, candidates: found, next: 0, added: 0 };
        proof {
            assert(neighbour_texts(found@).skip(0) == neighbour_texts(found@));
            assert(self@ == answered(s, neighbour_texts(found@)));
        }
    }

    /// Takes the answer whether the neighbour that was asked about has an
    /// embedding. One that has becomes a node.
    pub fn embedding(&mut self, found: bool)
        requires
            old(self).wf(),
            old(self)@.phase is Fetching,
        ensures
            final(self).wf(),
            final(self).bounds() == old(self).bounds(),
            final(self).begun() == old(self).begun(),
            final(self).chunks_read() == old(self).chunks_read(),
            final(self)@ == embedded(old(self)@, found),
    {
        let ghost s = self@;
        let ghost l = self.limits;
        let ghost o = self.origin@;
        proof {
            embedding_is_sound(l, o, s, found);
            lemma_head_bound(l, o, s);
        }
        let mut phase = Phase::Idle;
        std::mem::swap(&mut phase, &mut self.phase);
        match phase {
            Phase::Fetching { parent, candidates, next, added } => {
                let total = candidates.len();
                assert(next < total);
                if found {
                    let c = &candidates[next];
                    let depth: u32 = self.nodes[parent].depth + 1;
                    let node_id = self.nodes.len();
                    let ghost before = node_texts(self.nodes@);
                    let node = make_node(
                        node_id,
                        Some(parent),
                        depth,
                        c.chunk_id,
                        c.similarity,
                        &c.result,
                    );
                    self.nodes.push(node);
                    if depth > self.max_depth_reached {
                        self.max_depth_reached = depth;
                    }
                    self.phase = Phase::Scanning {
                        parent,
                        candidates,
                        next: next + 1,
                        added: added + 1,
                    };
                    proof {
                        assert(node_texts(self.nodes@) == before.push(node@));
                        assert(self@ == embedded(s, found));
                    }
                } else {
                    self.phase = Phase::Scanning { parent, candidates, next: next + 1, added };
                    assert(self@ == embedded(s, found));
                }
            },
            other => {
                self.phase = other;
            },
        }
    }

    /// The graph that the walk has built.
    pub fn finish(self, duration_ms: u64) -> (g: ConnectionGraph)
        requires
            self.wf(),
        ensures
            g.start_path@ == self.begun().start_path,
            node_texts(g.nodes@) == self@.nodes,
            graph::truncation_texts(g.truncation@) == self@.truncation,
            g.truncated == (self@.truncation.len() > 0),
            g.stats == (GraphStats {
                total_nodes: self@.nodes.len() as usize,
                max_depth_reached: self@.max_depth_reached,
                knn_queries: self@.knn_queries as u32,
                duration_ms,
                seeds_used: self.chunks_read(),
            }),
            g.stats.knn_queries <= g.stats.total_nodes <= self.bounds().max_nodes,
            g.stats.total_nodes == g.nodes@.len(),
    {
        proof {
            finished_bounds(self.limits, self.origin@, self@);
        }
        ConnectionGraph {
            start_path: self.start_path,
            truncated: self.truncation.len() > 0,
            stats: GraphStats {
                total_nodes: self.nodes.len(),
                max_depth_reached: self.max_depth_reached,
                knn_queries: self.knn_queries,
                duration_ms,
                seeds_used: self.seeds_used,
            },
            truncation: self.truncation,
            nodes: self.nodes,
        }
    }
}

proof fn finished_bounds(l: WalkLimits, o: Origin, s: WalkState)
    requires
        sound(l, o, s),
    ensures
        s.knn_queries + waiting(s) <= s.head <= s.nodes.len() <= l.max_nodes,
{
    reveal(tree_ok);
    reveal(counts_ok);
}

proof fn lemma_push_to_set<A>(s: Seq<A>, x: A)
    ensures
        s.push(x).to_set() == s.to_set().insert(x),
{
    let t = s.push(x);
    assert forall|a: A| t.to_set().contains(a) == s.to_set().insert(x).contains(a) by {
        if t.contains(a) {
            let k = choose|k: int| 0 <= k < t.len() && t[k] == a;
            if k < s.len() {
                assert(s[k] == a);
            }
        }
        if s.contains(a) {
            let k = choose|k: int| 0 <= k < s.len() && s[k] == a;
            assert(t[k] == a);
        }
        assert(t[s.len() as int] == x);
    }
    assert(t.to_set() =~= s.to_set().insert(x));
}

} // verus!
