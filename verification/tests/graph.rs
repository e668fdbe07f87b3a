//! The connection graph, walked over a small index that is kept in memory.

use kb_mcp::db::{CandidateRow, SearchResult};
use kb_mcp::float::Float32;
use kb_mcp::graph::{
    check_exclude_paths, clamp_max_nodes, clamp_max_seed_chunks, default_min_similarity,
    make_snippet, node_budget_detail, push_truncation, seed_cap_detail, ConnectionGraph,
    GraphError, GraphOptions, SeedStrategy, TruncationReason, DEFAULT_MAX_NODES,
    DEFAULT_MAX_SEED_CHUNKS, MAX_NODES_CEILING, MAX_SEED_CHUNKS_CEILING, SNIPPET_MAX_CHARS,
};
use kb_mcp::search::{collect_candidates, plan_vec_search};
use kb_mcp::tags::TagFailures;
use kb_mcp::walk::{cap_seeds, seed_of_row, GraphWalk, Neighbour, Question, Seed, SeedRow};

fn s(v: f32) -> Float32 {
    Float32::from_bits(v.to_bits())
}

fn val(v: Float32) -> f32 {
    f32::from_bits(v.to_bits())
}

struct Chunk {
    id: i64,
    path: String,
    heading: String,
    content: String,
    embedding: Vec<f32>,
    topic: Option<String>,
    quality: f32,
}

/// Chunks with their embeddings, searched by going through all of them.
struct Index {
    chunks: Vec<Chunk>,
    /// Chunks whose embedding is lost.
    lost: Vec<i64>,
}

fn distance(a: &[f32], b: &[f32]) -> f32 {
    a.iter().zip(b).map(|(x, y)| (x - y) * (x - y)).sum::<f32>().sqrt()
}

fn cos_sim(distance: f32) -> f32 {
    (1.0 - (distance * distance) / 2.0).clamp(0.0, 1.0)
}

fn centroid(embeddings: &[Vec<f32>]) -> Vec<f32> {
    let mut sum = vec![0f32; embeddings[0].len()];
    for e in embeddings {
        for (i, v) in e.iter().enumerate() {
            sum[i] += *v;
        }
    }
    for v in sum.iter_mut() {
        *v /= embeddings.len() as f32;
    }
    let norm: f32 = sum.iter().map(|x| x * x).sum::<f32>().sqrt();
    if norm > 0.0 {
        for v in sum.iter_mut() {
            *v /= norm;
        }
    }
    sum
}

impl Index {
    fn new() -> Self {
        Index {
            chunks: Vec::new(),
            lost: Vec::new(),
        }
    }

    fn insert_chunk(&mut self, path: &str, heading: &str, content: &str, value: f32) {
        self.chunks.push(Chunk {
            id: self.chunks.len() as i64 + 1,
            path: path.into(),
            heading: heading.into(),
            content: content.into(),
            embedding: vec![value; 384],
            topic: None,
            quality: 1.0,
        });
    }

    fn insert_doc_with_chunk(&mut self, path: &str, heading: &str, content: &str, value: f32) {
        self.insert_chunk(path, heading, content, value);
    }

    fn insert_doc_with_n_chunks(&mut self, path: &str, n: usize, base: f32, step: f32) {
        for i in 0..n {
            self.insert_chunk(
                path,
                &format!("h{i}"),
                &format!("chunk {i} of {path}"),
                base + step * i as f32,
            );
        }
    }

    /// The chunks of a document, `limit` of them at most.
    fn chunks_of(&self, path: &str, limit: usize) -> Vec<(Seed, Vec<f32>)> {
        let mut failures = TagFailures::new();
        self.chunks
            .iter()
            .filter(|c| c.path == path)
            .take(limit)
            .map(|c| {
                let row = SeedRow {
                    chunk_id: c.id,
                    content: c.content.clone(),
                    heading: Some(c.heading.clone()),
                    document_id: 1,
                    path: c.path.clone(),
                    title: None,
                    topic: c.topic.clone(),
                    date: None,
                    tags_json: None,
                };
                (seed_of_row(row, &mut failures), c.embedding.clone())
            })
            .collect()
    }

    fn embedding(&self, id: i64) -> Option<Vec<f32>> {
        if self.lost.contains(&id) {
            return None;
        }
        self.chunks.iter().find(|c| c.id == id).map(|c| c.embedding.clone())
    }

    fn neighbours(&self, of: &[f32], fetch_k: u32, opts: &GraphOptions) -> Vec<Neighbour> {
        let filters = opts.neighbour_filters();
        let mut order: Vec<(f32, &Chunk)> = self
            .chunks
            .iter()
            .map(|c| (distance(of, &c.embedding), c))
            .collect();
        order.sort_by(|a, b| a.0.partial_cmp(&b.0).unwrap());
        order.truncate(plan_vec_search(fetch_k, &filters) as usize);
        let rows: Vec<CandidateRow> = order
            .iter()
            .map(|(d, c)| CandidateRow {
                chunk_id: c.id,
                score: s(*d),
                content: c.content.clone(),
                heading: Some(c.heading.clone()),
                quality_score: s(c.quality),
                document_id: 1,
                path: c.path.clone(),
                title: None,
                topic: c.topic.clone(),
                date: None,
                category: None,
                tags_json: None,
                context_text: None,
            })
            .collect();
        let mut failures = TagFailures::new();
        collect_candidates(rows, fetch_k, &filters, &mut failures)
            .into_iter()
            .map(|(chunk_id, result)| Neighbour {
                chunk_id,
                similarity: s(cos_sim(val(result.score))),
                result,
            })
            .collect()
    }
}

fn build_connection_graph(
    db: &Index,
    start_path: &str,
    opts: &GraphOptions,
) -> Result<ConnectionGraph, GraphError> {
    check_exclude_paths(&opts.exclude_paths)?;
    let cap = clamp_max_seed_chunks(opts.max_seed_chunks);
    let (read, more_chunks) = cap_seeds(db.chunks_of(start_path, cap as usize + 1), cap);
    let (seeds, mut embeddings): (Vec<Seed>, Vec<Vec<f32>>) = read.into_iter().unzip();
    if opts.seed_strategy == SeedStrategy::Centroid && !embeddings.is_empty() {
        embeddings = vec![centroid(&embeddings)];
    }
    embeddings.truncate(clamp_max_nodes(opts.max_nodes) as usize);
    let mut walk = GraphWalk::start(start_path, &seeds, more_chunks, opts)?;
    loop {
        match walk.next() {
            Question::Neighbours {
                node_id, fetch_k, ..
            } => walk.neighbours(db.neighbours(&embeddings[node_id], fetch_k, opts)),
            Question::Embedding { chunk_id } => {
                let found = db.embedding(chunk_id);
                walk.embedding(found.is_some());
                embeddings.extend(found);
            }
            Question::Done => return Ok(walk.finish(0)),
        }
    }
}

fn reasons(g: &ConnectionGraph) -> Vec<TruncationReason> {
    g.truncation.iter().map(|t| t.reason).collect()
}

fn assert_budget_invariants(g: &ConnectionGraph, max_nodes: u32) {
    assert!(
        g.stats.total_nodes <= max_nodes as usize,
        "total_nodes {} exceeded max_nodes {max_nodes}",
        g.stats.total_nodes
    );
    assert!(
        g.stats.knn_queries as usize <= g.stats.total_nodes,
        "knn_queries {} exceeded total_nodes {} -- a node was expanded more than once",
        g.stats.knn_queries,
        g.stats.total_nodes
    );
}

fn seed_cap_boundary(chunks: usize, cap: u32) -> ConnectionGraph {
    let mut db = Index::new();
    db.insert_doc_with_n_chunks("d.md", chunks, 0.10, 0.0001);
    db.insert_doc_with_chunk("n1.md", "n1", "n1 body", 0.20);
    let opts = GraphOptions {
        depth: 1,
        fan_out: 2,
        min_similarity: s(0.0),
        max_seed_chunks: cap,
        ..Default::default()
    };
    build_connection_graph(&db, "d.md", &opts).unwrap()
}

#[test]
fn test_graph_start_path_not_found() {
    let db = Index::new();
    let err = build_connection_graph(&db, "does/not/exist.md", &GraphOptions::default())
        .expect_err("must fail");
    assert!(err.message().contains("document not found"));
}

#[test]
fn test_graph_two_hop_bfs() {
    let mut db = Index::new();
    db.insert_doc_with_chunk("s.md", "seed", "seed body", 0.10);
    db.insert_doc_with_chunk("a1.md", "a1", "a1 body", 0.11);
    db.insert_doc_with_chunk("a2.md", "a2", "a2 body", 0.12);
    db.insert_doc_with_chunk("a3.md", "a3", "a3 body", 0.13);
    db.insert_doc_with_chunk("b1.md", "b1", "b1 body", 0.111);

    let opts = GraphOptions {
        depth: 2,
        fan_out: 3,
        min_similarity: s(0.0),
        ..Default::default()
    };
    let g = build_connection_graph(&db, "s.md", &opts).unwrap();
    assert!(g.nodes.len() >= 5, "got {} nodes", g.nodes.len());
    assert_eq!(g.nodes[0].depth, 0);
    assert_eq!(g.nodes[0].parent_id, None);
    assert_eq!(g.nodes[0].path, "s.md");
    assert_eq!(g.nodes[0].score, s(1.0));
    let dup = g
        .nodes
        .iter()
        .filter(|n| n.path == "s.md" && n.depth > 0)
        .count();
    assert_eq!(dup, 0, "start path must not reappear at depth>0");
    for n in g.nodes.iter().filter(|n| n.depth > 0) {
        let pid = n.parent_id.expect("non-seed has parent");
        assert!(pid < g.nodes.len(), "parent_id out of range");
    }
    assert!(g.stats.max_depth_reached >= 1);
    assert!(g.stats.knn_queries >= 1);
}

#[test]
fn test_graph_respects_depth_limit() {
    let mut db = Index::new();
    db.insert_doc_with_chunk("s.md", "s", "s body", 0.10);
    db.insert_doc_with_chunk("a.md", "a", "a body", 0.11);
    db.insert_doc_with_chunk("b.md", "b", "b body", 0.111);

    let opts = GraphOptions {
        depth: 1,
        fan_out: 5,
        min_similarity: s(0.0),
        ..Default::default()
    };
    let g = build_connection_graph(&db, "s.md", &opts).unwrap();
    for n in &g.nodes {
        assert!(n.depth <= 1, "depth must not exceed 1, got {}", n.depth);
    }
    assert_eq!(g.stats.max_depth_reached, 1);
}

#[test]
fn test_graph_dedupes_visited() {
    let mut db = Index::new();
    db.insert_doc_with_chunk("s.md", "s", "s body", 0.10);
    db.insert_doc_with_chunk("a.md", "a", "a body", 0.11);
    db.insert_doc_with_chunk("b.md", "b", "b body", 0.12);

    let opts = GraphOptions {
        depth: 3,
        fan_out: 5,
        min_similarity: s(0.0),
        ..Default::default()
    };
    let g = build_connection_graph(&db, "s.md", &opts).unwrap();
    let mut chunk_ids: Vec<i64> = g.nodes.iter().map(|n| n.chunk_id).collect();
    chunk_ids.sort();
    let unique_len = {
        let mut c = chunk_ids.clone();
        c.dedup();
        c.len()
    };
    assert_eq!(
        chunk_ids.len(),
        unique_len,
        "chunk ids must be unique across nodes"
    );
}

#[test]
fn test_graph_respects_min_similarity() {
    let mut db = Index::new();
    db.insert_doc_with_chunk("s.md", "s", "s body", 0.0);
    db.insert_doc_with_chunk("close.md", "c", "c body", 0.001);
    db.insert_doc_with_chunk("far.md", "f", "f body", 0.5);

    let opts = GraphOptions {
        depth: 1,
        fan_out: 10,
        min_similarity: s(0.9),
        ..Default::default()
    };
    let g = build_connection_graph(&db, "s.md", &opts).unwrap();
    assert!(
        !g.nodes.iter().any(|n| n.path == "far.md"),
        "far.md should be pruned by min_similarity"
    );
}

#[test]
fn test_graph_fan_out_limit() {
    let mut db = Index::new();
    db.insert_doc_with_chunk("s.md", "s", "s body", 0.0);
    for i in 1..=10 {
        db.insert_doc_with_chunk(&format!("a{i}.md"), "a", "a body", 0.001 * i as f32);
    }
    let opts = GraphOptions {
        depth: 1,
        fan_out: 3,
        min_similarity: s(0.0),
        ..Default::default()
    };
    let g = build_connection_graph(&db, "s.md", &opts).unwrap();
    assert!(
        g.nodes.len() <= 4,
        "fan_out=3 at depth=1 gives at most 4 nodes, got {}",
        g.nodes.len()
    );
}

#[test]
fn test_graph_excludes_paths() {
    let mut db = Index::new();
    db.insert_doc_with_chunk("s.md", "s", "s body", 0.0);
    db.insert_doc_with_chunk("blocked.md", "b", "b body", 0.001);
    db.insert_doc_with_chunk("allowed.md", "a", "a body", 0.002);

    let opts = GraphOptions {
        depth: 1,
        fan_out: 5,
        min_similarity: s(0.0),
        exclude_paths: vec!["blocked.md".into()],
        ..Default::default()
    };
    let g = build_connection_graph(&db, "s.md", &opts).unwrap();
    assert!(!g.nodes.iter().any(|n| n.path == "blocked.md"));
    assert!(g.nodes.iter().any(|n| n.path == "allowed.md"));
}

#[test]
fn test_graph_snippet_is_truncated() {
    let mut db = Index::new();
    db.insert_doc_with_chunk("s.md", "s", &"x".repeat(500), 0.0);

    let opts = GraphOptions {
        depth: 0,
        fan_out: 1,
        min_similarity: s(0.0),
        ..Default::default()
    };
    let g = build_connection_graph(&db, "s.md", &opts).unwrap();
    assert_eq!(g.nodes.len(), 1);
    assert!(g.nodes[0].snippet.ends_with('…'));
    assert!(g.nodes[0].snippet.chars().count() <= SNIPPET_MAX_CHARS + 1);
}

#[test]
fn test_graph_centroid_seed_single_node() {
    let mut db = Index::new();
    let doc = "s.md";
    db.insert_chunk(doc, "h1", "c1", 0.0);
    db.insert_chunk(doc, "h2", "c2", 0.1);
    db.insert_doc_with_chunk("x.md", "x", "x", 0.05);

    let opts = GraphOptions {
        depth: 1,
        fan_out: 3,
        min_similarity: s(0.0),
        seed_strategy: SeedStrategy::Centroid,
        ..Default::default()
    };
    let g = build_connection_graph(&db, "s.md", &opts).unwrap();
    let seed_count = g.nodes.iter().filter(|n| n.depth == 0).count();
    assert_eq!(seed_count, 1, "centroid seed should be exactly 1 node");
}

#[test]
fn test_graph_fan_out_zero_returns_seeds_only() {
    let mut db = Index::new();
    db.insert_doc_with_chunk("s.md", "s", "s body", 0.0);
    db.insert_doc_with_chunk("a.md", "a", "a body", 0.01);
    let opts = GraphOptions {
        depth: 2,
        fan_out: 0,
        min_similarity: s(0.0),
        ..Default::default()
    };
    let g = build_connection_graph(&db, "s.md", &opts).unwrap();
    assert_eq!(
        g.nodes.len(),
        1,
        "only seed should be present when fan_out=0"
    );
    assert_eq!(g.stats.knn_queries, 0);
    assert_eq!(g.stats.max_depth_reached, 0);
}

#[test]
fn exclude_paths_is_bounded_like_the_search_filter_lists() {
    let mut db = Index::new();
    db.insert_doc_with_chunk("s.md", "S", "seed", 0.1);

    let over = GraphOptions {
        depth: 0,
        fan_out: 0,
        exclude_paths: (0..65).map(|i| format!("junk{i}.md")).collect(),
        ..Default::default()
    };
    let err = build_connection_graph(&db, "s.md", &over)
        .expect_err("65 exclude_paths must be rejected");
    let msg = err.message();
    assert!(
        msg.contains("exclude_paths") && msg.contains("too many entries"),
        "the error must name the offending list and why: {msg}"
    );
    let at_limit = GraphOptions {
        depth: 0,
        fan_out: 0,
        exclude_paths: (0..64).map(|i| format!("junk{i}.md")).collect(),
        ..Default::default()
    };
    build_connection_graph(&db, "s.md", &at_limit)
        .expect("64 exclude_paths is within the limit and must still work");
    let long = GraphOptions {
        depth: 0,
        fan_out: 0,
        exclude_paths: vec!["x".repeat(2048)],
        ..Default::default()
    };
    let err = build_connection_graph(&db, "s.md", &long)
        .expect_err("an oversized exclude_paths entry must be rejected");
    assert!(
        err.message().contains("too large"),
        "per-entry size must be bounded as well: {err:?}"
    );
}

#[test]
fn test_graph_dedup_by_path_collapses_same_doc_chunks() {
    let mut db = Index::new();
    db.insert_doc_with_chunk("s.md", "s", "s body", 0.0);
    let doc = "a.md";
    db.insert_chunk(doc, "h1", "c1", 0.001);
    db.insert_chunk(doc, "h2", "c2", 0.002);
    let opts_dedup = GraphOptions {
        depth: 1,
        fan_out: 5,
        min_similarity: s(0.0),
        dedup_by_path: true,
        ..Default::default()
    };
    let g = build_connection_graph(&db, "s.md", &opts_dedup).unwrap();
    let a_count = g.nodes.iter().filter(|n| n.path == "a.md").count();
    assert_eq!(a_count, 1, "dedup_by_path=true should collapse a.md");
    let opts_nodedup = GraphOptions {
        depth: 1,
        fan_out: 5,
        min_similarity: s(0.0),
        dedup_by_path: false,
        ..Default::default()
    };
    let g = build_connection_graph(&db, "s.md", &opts_nodedup).unwrap();
    let a_count = g.nodes.iter().filter(|n| n.path == "a.md").count();
    assert!(
        a_count >= 2,
        "dedup_by_path=false should allow multiple chunks from a.md, got {a_count}"
    );
}

#[test]
fn clamping_keeps_the_budgets_inside_their_ceilings() {
    assert_eq!(clamp_max_nodes(u32::MAX), MAX_NODES_CEILING);
    assert_eq!(clamp_max_nodes(7), 7);
    assert_eq!(clamp_max_nodes(0), 0);

    assert_eq!(clamp_max_seed_chunks(u32::MAX), MAX_SEED_CHUNKS_CEILING);
    assert_eq!(clamp_max_seed_chunks(7), 7);
    assert_eq!(clamp_max_seed_chunks(0), 1);
}

#[test]
fn the_seed_cap_bounds_the_seed_phase_and_says_so() {
    let mut db = Index::new();
    db.insert_doc_with_n_chunks("big.md", 20, 0.10, 0.0001);
    db.insert_doc_with_chunk("n1.md", "n1", "n1 body", 0.20);

    let opts = GraphOptions {
        depth: 1,
        fan_out: 2,
        min_similarity: s(0.0),
        max_seed_chunks: 5,
        ..Default::default()
    };
    let g = build_connection_graph(&db, "big.md", &opts).unwrap();

    assert_eq!(
        g.stats.seeds_used, 5,
        "only the capped prefix may be seeded"
    );
    assert_eq!(
        g.nodes.iter().filter(|n| n.depth == 0).count(),
        5,
        "seed nodes must match seeds_used"
    );
    assert!(g.truncated);
    assert_eq!(reasons(&g), vec![TruncationReason::SeedChunks]);
    assert_eq!(g.truncation[0].limit, 5);
    assert!(
        g.truncation[0].detail.contains("max_seed_chunks"),
        "the detail must name the knob that lifts the bound: {}",
        g.truncation[0].detail
    );
}

#[test]
fn a_document_under_the_seed_cap_is_not_reported_as_truncated() {
    let mut db = Index::new();
    db.insert_doc_with_n_chunks("small.md", 3, 0.10, 0.0001);
    db.insert_doc_with_chunk("n1.md", "n1", "n1 body", 0.20);

    let opts = GraphOptions {
        depth: 1,
        fan_out: 2,
        min_similarity: s(0.0),
        max_seed_chunks: 32,
        ..Default::default()
    };
    let g = build_connection_graph(&db, "small.md", &opts).unwrap();

    assert_eq!(g.stats.seeds_used, 3);
    assert!(!g.truncated, "nothing was lost: {:?}", g.truncation);
    assert!(g.truncation.is_empty());
}

#[test]
fn the_seed_cap_fires_only_when_a_chunk_was_actually_dropped() {
    let exact = seed_cap_boundary(8, 8);
    assert_eq!(exact.stats.seeds_used, 8);
    assert!(
        !exact.truncated,
        "cap == chunk count drops nothing: {:?}",
        exact.truncation
    );

    let over = seed_cap_boundary(9, 8);
    assert_eq!(over.stats.seeds_used, 8);
    assert!(over.truncated, "one chunk past the cap is a real loss");
    assert_eq!(reasons(&over), vec![TruncationReason::SeedChunks]);
}

#[test]
fn the_budget_never_spends_itself_entirely_on_seeds() {
    let mut db = Index::new();
    db.insert_doc_with_n_chunks("big.md", 24, 0.0, 1.0);
    for i in 0..24 {
        db.insert_doc_with_chunk(&format!("n{i}.md"),
            "n",
            "neighbour body",
            i as f32 + 0.001,
        );
    }

    let base = GraphOptions {
        depth: 1,
        fan_out: 5,
        min_similarity: s(0.0),
        max_nodes: 20,
        ..Default::default()
    };
    let uncapped = build_connection_graph(&db,
        "big.md",
        &GraphOptions {
            max_seed_chunks: 1000,
            ..base.clone()
        },
    )
    .unwrap();
    assert_eq!(
        uncapped.nodes.iter().filter(|n| n.depth > 0).count(),
        0,
        "precondition: an uncapped seed phase is what starves the frontier"
    );
    let capped = build_connection_graph(&db,
        "big.md",
        &GraphOptions {
            max_seed_chunks: 8,
            ..base
        },
    )
    .unwrap();
    assert_budget_invariants(&capped, 20);
    let neighbours = capped.nodes.iter().filter(|n| n.depth > 0).count();
    assert!(
        neighbours > 0,
        "a connection graph with no connections is useless; got {} seeds and {neighbours} \
         neighbours out of a 20 node budget",
        capped.nodes.iter().filter(|n| n.depth == 0).count()
    );
}

#[test]
fn the_node_budget_bounds_the_result_and_the_knn_count() {
    let mut db = Index::new();
    db.insert_doc_with_n_chunks("s.md", 4, 0.10, 0.0001);
    for i in 0..30 {
        db.insert_doc_with_chunk(&format!("n{i}.md"),
            "n",
            "neighbour body",
            0.20 + 0.001 * i as f32,
        );
    }

    for budget in [1u32, 3, 7, 12] {
        let opts = GraphOptions {
            depth: 3,
            fan_out: 20,
            min_similarity: s(0.0),
            max_nodes: budget,
            max_seed_chunks: 4,
            ..Default::default()
        };
        let g = build_connection_graph(&db, "s.md", &opts).unwrap();
        assert_budget_invariants(&g, budget);
    }
}

#[test]
fn a_smaller_budget_finds_the_first_of_the_nodes() {
    let mut db = Index::new();
    db.insert_doc_with_n_chunks("s.md", 3, 0.10, 0.0001);
    for i in 0..9 {
        db.insert_doc_with_chunk(&format!("n{i}.md"),
            "n",
            "neighbour body",
            0.20 + 0.01 * i as f32,
        );
    }
    let build = |strategy: SeedStrategy, budget: u32| {
        let opts = GraphOptions {
            depth: 2,
            fan_out: 4,
            min_similarity: s(0.0),
            seed_strategy: strategy,
            max_nodes: budget,
            ..Default::default()
        };
        build_connection_graph(&db, "s.md", &opts).unwrap()
    };
    for strategy in [SeedStrategy::AllChunks, SeedStrategy::Centroid] {
        let whole = build(strategy, 100);
        assert!(!whole.truncated);
        assert!(whole.nodes.len() > 5);
        for budget in 0..=whole.nodes.len() as u32 + 2 {
            let part = build(strategy, budget);
            assert!(part.nodes.len() <= whole.nodes.len());
            for (a, b) in part.nodes.iter().zip(whole.nodes.iter()) {
                assert_eq!(
                    (a.node_id, a.parent_id, a.depth, a.chunk_id),
                    (b.node_id, b.parent_id, b.depth, b.chunk_id)
                );
            }
            if part.truncated {
                assert_eq!(part.nodes.len(), budget as usize);
            } else {
                assert_eq!(part.nodes.len(), whole.nodes.len());
            }
        }
    }
}

#[test]
fn the_node_budget_is_reported_with_a_remedy() {
    let mut db = Index::new();
    db.insert_doc_with_chunk("s.md", "s", "s body", 0.10);
    for i in 0..10 {
        db.insert_doc_with_chunk(&format!("n{i}.md"),
            "n",
            "neighbour body",
            0.11 + 0.001 * i as f32,
        );
    }

    let opts = GraphOptions {
        depth: 1,
        fan_out: 10,
        min_similarity: s(0.0),
        max_nodes: 4,
        ..Default::default()
    };
    let g = build_connection_graph(&db, "s.md", &opts).unwrap();

    assert_eq!(g.stats.total_nodes, 4);
    assert!(g.truncated);
    assert_eq!(reasons(&g), vec![TruncationReason::NodeBudget]);
    assert_eq!(g.truncation[0].limit, 4);
    assert!(
        g.truncation[0].detail.contains("max_nodes"),
        "the detail must name the knob that lifts the bound: {}",
        g.truncation[0].detail
    );
}

#[test]
fn a_full_budget_stops_the_queries_instead_of_scanning_for_nothing() {
    let mut db = Index::new();
    db.insert_doc_with_chunk("s.md", "s", "s body", 0.10);
    for i in 0..10 {
        db.insert_doc_with_chunk(&format!("n{i}.md"),
            "n",
            "neighbour body",
            0.11 + 0.001 * i as f32,
        );
    }
    let opts = GraphOptions {
        depth: 2,
        fan_out: 10,
        min_similarity: s(0.0),
        max_nodes: 4,
        ..Default::default()
    };
    let g = build_connection_graph(&db, "s.md", &opts).unwrap();

    assert_eq!(g.stats.total_nodes, 4);
    assert_eq!(
        g.stats.knn_queries, 1,
        "the seed's KNN filled the budget; the 3 queued neighbours must not be queried"
    );
    assert!(g.truncated);
}

#[test]
fn filling_the_budget_exactly_is_not_truncation() {
    let mut db = Index::new();
    db.insert_doc_with_chunk("s.md", "s", "s body", 0.10);
    db.insert_doc_with_chunk("n0.md", "n", "n body", 0.11);
    db.insert_doc_with_chunk("n1.md", "n", "n body", 0.12);
    let opts = GraphOptions {
        depth: 1,
        fan_out: 5,
        min_similarity: s(0.0),
        max_nodes: 3,
        ..Default::default()
    };
    let g = build_connection_graph(&db, "s.md", &opts).unwrap();

    assert_eq!(g.stats.total_nodes, 3);
    assert!(
        !g.truncated,
        "the budget was filled but nothing was refused: {:?}",
        g.truncation
    );
}

#[test]
fn a_zero_node_budget_returns_an_empty_graph_and_explains_why() {
    let mut db = Index::new();
    db.insert_doc_with_chunk("s.md", "s", "s body", 0.10);
    db.insert_doc_with_chunk("n0.md", "n", "n body", 0.11);

    for strategy in [SeedStrategy::AllChunks, SeedStrategy::Centroid] {
        let opts = GraphOptions {
            depth: 1,
            fan_out: 5,
            min_similarity: s(0.0),
            max_nodes: 0,
            seed_strategy: strategy,
            ..Default::default()
        };
        let g = build_connection_graph(&db, "s.md", &opts).unwrap();
        assert_eq!(g.nodes.len(), 0, "{strategy:?} must honour max_nodes = 0");
        assert_eq!(g.stats.knn_queries, 0, "{strategy:?} must not query");
        assert!(g.truncated, "{strategy:?} must explain the empty result");
        assert_eq!(reasons(&g), vec![TruncationReason::NodeBudget]);
    }
}

#[test]
fn the_centroid_reports_that_it_averaged_only_a_prefix() {
    let mut db = Index::new();
    db.insert_doc_with_n_chunks("big.md", 20, 0.10, 0.0001);
    db.insert_doc_with_chunk("n1.md", "n1", "n1 body", 0.20);

    let opts = GraphOptions {
        depth: 1,
        fan_out: 2,
        min_similarity: s(0.0),
        seed_strategy: SeedStrategy::Centroid,
        max_seed_chunks: 6,
        ..Default::default()
    };
    let g = build_connection_graph(&db, "big.md", &opts).unwrap();

    assert_eq!(
        g.nodes.iter().filter(|n| n.depth == 0).count(),
        1,
        "centroid still emits exactly one seed node"
    );
    assert_eq!(
        g.stats.seeds_used, 6,
        "seeds_used reports the averaging input, not the node count"
    );
    assert!(g.truncated);
    assert_eq!(reasons(&g), vec![TruncationReason::SeedChunks]);
    assert!(
        g.truncation[0].detail.contains("centroid"),
        "the centroid remedy differs from the all_chunks one: {}",
        g.truncation[0].detail
    );
}

#[test]
fn each_reason_is_reported_at_most_once() {
    let mut db = Index::new();
    db.insert_doc_with_n_chunks("big.md", 20, 0.10, 0.0001);
    for i in 0..20 {
        db.insert_doc_with_chunk(&format!("n{i}.md"),
            "n",
            "neighbour body",
            0.20 + 0.001 * i as f32,
        );
    }

    let opts = GraphOptions {
        depth: 3,
        fan_out: 20,
        min_similarity: s(0.0),
        max_nodes: 6,
        max_seed_chunks: 4,
        ..Default::default()
    };
    let g = build_connection_graph(&db, "big.md", &opts).unwrap();

    assert!(g.truncated);
    let mut seen = reasons(&g);
    let before = seen.len();
    seen.sort_by_key(|r| format!("{r:?}"));
    seen.dedup();
    assert_eq!(before, seen.len(), "a reason was reported twice");
    assert!(
        seen.contains(&TruncationReason::SeedChunks)
            && seen.contains(&TruncationReason::NodeBudget),
        "both bounds fired here, got {seen:?}"
    );
}

#[test]
fn the_defaults_are_the_measured_ones() {
    assert_eq!(DEFAULT_MAX_SEED_CHUNKS, 32);
    assert_eq!(DEFAULT_MAX_NODES, 100);
    let d = GraphOptions::default();
    assert_eq!(d.max_seed_chunks, DEFAULT_MAX_SEED_CHUNKS);
    assert_eq!(d.max_nodes, DEFAULT_MAX_NODES);
}

#[test]
fn reasons_are_named_in_snake_case() {
    assert_eq!(TruncationReason::SeedChunks.as_str(), "seed_chunks");
    assert_eq!(TruncationReason::NodeBudget.as_str(), "node_budget");
}

#[test]
fn a_neighbour_without_an_embedding_does_not_become_a_node() {
    let mut db = Index::new();
    db.insert_doc_with_chunk("s.md", "s", "s body", 0.0);
    db.insert_doc_with_chunk("a.md", "a", "a body", 0.001);
    db.insert_doc_with_chunk("b.md", "b", "b body", 0.002);
    db.lost.push(2);
    let opts = GraphOptions {
        depth: 2,
        fan_out: 2,
        min_similarity: s(0.0),
        ..Default::default()
    };
    let g = build_connection_graph(&db, "s.md", &opts).unwrap();
    let paths: Vec<&str> = g.nodes.iter().map(|n| n.path.as_str()).collect();
    assert_eq!(paths, vec!["s.md", "b.md"]);
    assert_eq!(g.nodes[1].parent_id, Some(0));
    assert_eq!(g.nodes[1].chunk_id, 3);
    assert_eq!(g.stats.max_depth_reached, 1);
}

#[test]
fn nodes_come_breadth_first_and_carry_their_similarity() {
    let mut db = Index::new();
    db.insert_doc_with_chunk("s.md", "s", "s body", 0.0);
    for i in 1..6 {
        db.insert_doc_with_chunk(&format!("n{i}.md"), "n", "n body", 0.001 * i as f32);
    }
    let opts = GraphOptions {
        depth: 3,
        fan_out: 2,
        min_similarity: s(0.0),
        ..Default::default()
    };
    let g = build_connection_graph(&db, "s.md", &opts).unwrap();
    for (i, n) in g.nodes.iter().enumerate() {
        assert_eq!(n.node_id, i);
        assert!(i == 0 || g.nodes[i - 1].depth <= n.depth);
        if let Some(p) = n.parent_id {
            assert_eq!(n.depth, g.nodes[p].depth + 1);
            let children = g.nodes.iter().filter(|c| c.parent_id == Some(p)).count();
            assert!(children <= 2);
        }
    }
    let expected = cos_sim(distance(&[0.0; 384], &[0.001; 384]));
    assert_eq!(val(g.nodes[1].score), expected);
    assert_eq!(g.nodes[1].path, "n1.md");
}

#[test]
fn the_filters_of_the_options_reach_the_index() {
    let mut db = Index::new();
    db.insert_doc_with_chunk("s.md", "s", "s body", 0.0);
    db.insert_doc_with_chunk("poor.md", "p", "p body", 0.001);
    db.insert_doc_with_chunk("other.md", "o", "o body", 0.002);
    db.insert_doc_with_chunk("kept.md", "k", "k body", 0.003);
    db.chunks[1].topic = Some("t".into());
    db.chunks[1].quality = 0.1;
    db.chunks[3].topic = Some("t".into());
    let opts = GraphOptions {
        depth: 1,
        min_similarity: s(0.0),
        topic: Some("t".into()),
        ..Default::default()
    };
    let g = build_connection_graph(&db, "s.md", &opts).unwrap();
    let paths: Vec<&str> = g.nodes.iter().map(|n| n.path.as_str()).collect();
    assert_eq!(paths, vec!["s.md", "kept.md"]);
    let filters = opts.neighbour_filters();
    assert_eq!((filters.category, filters.topic), (None, Some("t")));
    assert_eq!(val(filters.min_quality), 0.3);
    assert_eq!(val(default_min_similarity()), 0.3);
}

#[test]
fn a_snippet_keeps_whole_characters() {
    assert_eq!(make_snippet("short"), "short");
    assert_eq!(make_snippet(&"あ".repeat(200)), "あ".repeat(200));
    assert_eq!(make_snippet(&"あ".repeat(201)), format!("{}…", "あ".repeat(200)));
}

#[test]
fn the_details_and_the_errors_read_as_written() {
    assert_eq!(
        node_budget_detail(4),
        "the graph hit its node budget of 4; the walk stopped before the frontier was \
         exhausted. To get more nodes, raise max_nodes. To spend the budget on depth instead of \
         breadth, use seed_strategy \"centroid\" or lower max_seed_chunks / fan_out. To get \
         fewer but more relevant nodes, raise min_similarity, set dedup_by_path, or use the \
         category / topic / exclude_paths filters."
    );
    assert_eq!(
        seed_cap_detail(SeedStrategy::AllChunks, 5),
        "the start document has more than 5 chunks; only its first 5 were expanded as BFS \
         seeds. Raise max_seed_chunks, or use seed_strategy \"centroid\" to fold the whole \
         document into a single seed."
    );
    assert_eq!(
        seed_cap_detail(SeedStrategy::Centroid, 6),
        "the start document has more than 6 chunks; the centroid is the average of its first 6 \
         chunks, not of the whole document. Raise max_seed_chunks for a centroid over more of it."
    );
    assert_eq!(
        build_connection_graph(&Index::new(), "x.md", &GraphOptions::default())
            .unwrap_err()
            .message(),
        "document not found (no chunks for path): x.md. Run `kb-mcp index` to (re)index the \
         knowledge base."
    );
    let mut noted = Vec::new();
    push_truncation(&mut noted, TruncationReason::NodeBudget, 4, "first".into());
    push_truncation(&mut noted, TruncationReason::NodeBudget, 5, "second".into());
    assert_eq!(noted.len(), 1);
    assert_eq!(noted[0].detail, "first");
}

#[test]
fn a_seed_has_full_score_and_its_own_tags() {
    let mut failures = TagFailures::new();
    let mut row = SeedRow {
        chunk_id: 9,
        content: "c".into(),
        heading: None,
        document_id: 2,
        path: "p.md".into(),
        title: Some("T".into()),
        topic: None,
        date: None,
        tags_json: Some(r#"["a","b"]"#.into()),
    };
    let seed = seed_of_row(row.clone(), &mut failures);
    let r: SearchResult = seed.result;
    assert_eq!((seed.chunk_id, val(r.score)), (9, 1.0));
    assert_eq!(r.tags, vec!["a", "b"]);
    assert!(r.context_text.is_none());
    row.tags_json = Some("{".into());
    assert!(seed_of_row(row, &mut failures).result.tags.is_empty());
    assert_eq!(failures.total(None), 1);
}
