//! What the contracts see of values: everything that a value holds, as it holds it.

use crate::corpus;
use crate::corpus::CorpusSnapshot;
use crate::db;
use crate::db::{SearchHit, SearchResult};
use crate::fingerprint::ConfigFingerprint;
use crate::fts_query;
use crate::fts_query::{Run, Segment, SegmentText};
use crate::graph;
use crate::graph::{GraphNode, GraphTruncation};
use crate::path;
use crate::path::PathName;
use crate::report;
use crate::report::MetricLine;
use crate::search::FtsRequest;
use crate::store;
use crate::tags;
use crate::text;
use crate::trust;
use crate::walk;
use crate::walk::Neighbour;
use vstd::prelude::*;

verus! {

/// Optional text is seen as it is: there or not, with its characters.
pub proof fn optional_text_is_seen_as_it_is(o: Option<String>, p: Option<&str>)
    ensures
        text::option_text(o) is Some <==> o is Some,
        o is Some ==> text::option_text(o)->0 == o->0@,
        db::slice_text(p) is Some <==> p is Some,
        p is Some ==> db::slice_text(p)->0 == p->0@,
{
}

/// Lists are seen entry by entry.
pub proof fn lists_are_seen_entry_by_entry(
    a: Seq<String>,
    b: Seq<&str>,
    c: Seq<(String, String)>,
    d: Seq<PathName>,
    e: Seq<Vec<i64>>,
    i: int,
)
    ensures
        text::texts(a).len() == a.len(),
        0 <= i < a.len() ==> text::texts(a)[i] == a[i]@,
        text::slice_texts(b).len() == b.len(),
        0 <= i < b.len() ==> text::slice_texts(b)[i] == b[i]@,
        corpus::entry_texts(c).len() == c.len(),
        0 <= i < c.len() ==> corpus::entry_texts(c)[i] == (c[i].0@, c[i].1@),
        path::path_texts(d).len() == d.len(),
        0 <= i < d.len() ==> path::path_texts(d)[i] == d[i]@,
        store::batch_views(e).len() == e.len(),
        0 <= i < e.len() ==> store::batch_views(e)[i] == e[i]@,
{
}

/// Lists of results, nodes and the like are seen entry by entry.
pub proof fn lists_of_values_are_seen_entry_by_entry(
    hits: Seq<(i64, SearchResult)>,
    nodes: Seq<GraphNode>,
    found: Seq<Neighbour>,
    notes: Seq<GraphTruncation>,
    lines: Seq<MetricLine>,
    segments: Seq<Segment<'_>>,
    runs: Seq<Run<'_>>,
    i: int,
)
    ensures
        db::hit_texts(hits).len() == hits.len(),
        0 <= i < hits.len() ==> db::hit_texts(hits)[i] == (hits[i].0, hits[i].1@),
        walk::node_texts(nodes).len() == nodes.len(),
        0 <= i < nodes.len() ==> walk::node_texts(nodes)[i] == nodes[i]@,
        walk::neighbour_texts(found).len() == found.len(),
        0 <= i < found.len() ==> walk::neighbour_texts(found)[i] == found[i]@,
        graph::truncation_texts(notes).len() == notes.len(),
        0 <= i < notes.len() ==> graph::truncation_texts(notes)[i] == notes[i]@,
        report::line_texts(lines).len() == lines.len(),
        0 <= i < lines.len() ==> report::line_texts(lines)[i] == lines[i]@,
        fts_query::segment_texts(segments).len() == segments.len(),
        0 <= i < segments.len() ==> fts_query::segment_texts(segments)[i] == segments[i]@,
        fts_query::run_texts(runs).len() == runs.len(),
        0 <= i < runs.len() ==> fts_query::run_texts(runs)[i] == runs[i].text@,
{
}

/// A result is seen field by field.
pub proof fn results_are_seen_field_by_field(r: SearchResult)
    ensures
        r@.score == r.score,
        r@.content == r.content@,
        r@.heading == text::option_text(r.heading),
        r@.document_id == r.document_id,
        r@.path == r.path@,
        r@.title == text::option_text(r.title),
        r@.topic == text::option_text(r.topic),
        r@.date == text::option_text(r.date),
        r@.tags == text::texts(r.tags@),
        r@.context_text == text::option_text(r.context_text),
{
}

/// A result becomes a hit with what it holds; nothing is marked or expanded yet.
pub proof fn results_become_hits_as_they_are(r: SearchResult)
    ensures
        ({
            let h = <SearchHit as vstd::std_specs::convert::FromSpec<SearchResult>>::from_spec(r);
            &&& h.score == r.score
            &&& h.path == r.path
            &&& h.title == r.title
            &&& h.heading == r.heading
            &&& h.topic == r.topic
            &&& h.date == r.date
            &&& h.tags == r.tags
            &&& h.content == r.content
            &&& h.match_spans is None
            &&& h.expanded_from is None
        }),
{
}

/// A node and a note of a graph, and a neighbour, are seen field by field.
pub proof fn graphs_are_seen_field_by_field(n: GraphNode, t: GraphTruncation, f: Neighbour)
    ensures
        n@.node_id == n.node_id,
        n@.parent_id is Some <==> n.parent_id is Some,
        n.parent_id is Some ==> n@.parent_id->0 == n.parent_id->0,
        n@.depth == n.depth,
        n@.chunk_id == n.chunk_id,
        n@.score == n.score,
        n@.path == n.path@,
        n@.heading == text::option_text(n.heading),
        n@.title == text::option_text(n.title),
        n@.topic == text::option_text(n.topic),
        n@.snippet == n.snippet@,
        t@.reason == t.reason,
        t@.limit == t.limit,
        t@.detail == t.detail@,
        f@.chunk_id == f.chunk_id,
        f@.similarity == f.similarity,
        f@.result == f.result@,
{
}

/// A region of a query is seen as what it is.
pub proof fn regions_are_seen_as_they_are(s: Segment<'_>)
    ensures
        s matches Segment::Quoted(t) ==> s@ == SegmentText::Quoted(t@),
        s matches Segment::Plain(t) ==> s@ == SegmentText::Plain(t@),
{
}

/// The conditions of a run, a snapshot, a path, a request and a line are seen field by
/// field.
pub proof fn records_are_seen_field_by_field(
    f: ConfigFingerprint,
    c: CorpusSnapshot,
    p: PathName,
    q: FtsRequest,
    l: MetricLine,
)
    ensures
        f@.model == f.model@,
        f@.reranker == text::option_text(f.reranker),
        f@.limit == f.limit,
        f@.k_values == f.k_values@,
        f@.golden_hash == f.golden_hash@,
        f@.metric_version == f.metric_version,
        f@.mmr == f.mmr,
        f@.parent_retriever == f.parent_retriever,
        f@.fusion == f.fusion,
        f@.context is Some <==> f.context is Some,
        f.context is Some ==> f@.context->0 == f.context->0.mode@,
        c@.documents == c.documents,
        c@.chunks == c.chunks,
        c@.digest == c.digest@,
        p@.root == text::option_text(p.root),
        p@.parts == text::texts(p.parts@),
        q@.expression == q.expression@,
        q@.fetch_limit == q.fetch_limit,
        q@.heading_weight == q.heading_weight,
        q@.context_weight == q.context_weight,
        q@.content_weight == q.content_weight,
        l@.label == l.label@,
        l@.now == l.now,
        l@.prev == l.prev,
{
}

/// What may be missing is seen as missing, and else as it is.
pub proof fn what_may_be_missing_is_seen_as_it_is(
    p: Option<PathName>,
    q: Option<&PathName>,
    h: Option<&str>,
    c: Option<&CorpusSnapshot>,
    v: Seq<Option<String>>,
    i: int,
)
    ensures
        path::option_path(p) is Some <==> p is Some,
        p is Some ==> path::option_path(p)->0 == p->0@,
        path::path_ref(q) is Some <==> q is Some,
        q is Some ==> path::path_ref(q)->0 == q->0@,
        trust::home_text(h) is Some <==> h is Some,
        h is Some ==> trust::home_text(h)->0 == h->0@,
        corpus::snapshot_text(c) is Some <==> c is Some,
        c is Some ==> corpus::snapshot_text(c)->0 == c->0@,
        tags::option_texts(v).len() == v.len(),
        0 <= i < v.len() ==> tags::option_texts(v)[i] == text::option_text(v[i]),
{
}

} // verus!
