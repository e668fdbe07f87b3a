//! Evaluation: what counts as a hit, what the metrics are made of, which runs
//! compare, and what a report says.

use kb_mcp::config::{
    Config, ContextualConfig, FusionConfig, MmrConfig, ParentRetrieverConfig, SearchConfig,
    SearchOverrides,
};
use kb_mcp::corpus::{corpus_digest, describe_corpus_change, CorpusSnapshot};
use kb_mcp::db::{ContextMode, SearchHit};
use kb_mcp::eval::{
    clamp_search_limit, default_history_path, hit_records, normalize_eval_limit_and_k, query_id,
    retrieval_depth, EvalSession, GoldenQuery, GoldenSet, SEARCH_LIMIT_MAX,
};
use kb_mcp::fingerprint::{
    legacy_metric_version, ConfigFingerprint, ContextFingerprint, FusionFingerprint,
    MmrFingerprint, ParentRetrieverFingerprint, METRIC_VERSION,
};
use kb_mcp::float::{Float32, Float64};
use kb_mcp::history::{
    aggregate_metrics, comparisons, corpus_changed, diff_inputs, is_regression, AggregateMetrics,
    EvalRun, History, QueryMetrics, QueryResult,
};
use kb_mcp::metrics::{
    compute_query_metrics, first_hit_is_unranked, is_hit, is_hit_given, ndcg_at_k,
    normalize_heading, recall_at_k, reciprocal_rank, ExpectedHit, Gains, HitRecord, Ratio,
};
use kb_mcp::path::PathName;
use kb_mcp::report::{
    format_text, format_text_given, metric_lines, query_rows, render_diff, LineNumbers,
    RowNumbers,
};
use kb_mcp::time::Timestamp;
use std::collections::{BTreeMap, HashMap};

fn f(v: f64) -> Float64 {
    Float64::from_bits(v.to_bits())
}

fn val(v: Float64) -> f64 {
    f64::from_bits(v.to_bits())
}

fn s(v: f32) -> Float32 {
    Float32::from_bits(v.to_bits())
}

fn ratio(r: Ratio) -> f64 {
    r.numerator as f64 / r.denominator as f64
}

fn gain(g: &Gains) -> f64 {
    let dcg: f64 = g.ranks.iter().map(|r| 1.0 / ((*r as f64 + 1.0).log2())).sum();
    let idcg: f64 = (1..=g.ideal).map(|i| 1.0 / ((i as f64 + 1.0).log2())).sum();
    if idcg == 0.0 {
        0.0
    } else {
        dcg / idcg
    }
}

fn recall(expected: &[ExpectedHit], top: &[HitRecord], k: usize) -> f64 {
    ratio(recall_at_k(expected, top, k))
}

fn rr(expected: &[ExpectedHit], top: &[HitRecord]) -> f64 {
    ratio(reciprocal_rank(expected, top))
}

fn ndcg(expected: &[ExpectedHit], top: &[HitRecord], k: usize) -> f64 {
    gain(&ndcg_at_k(expected, top, k))
}

fn query_metrics(expected: &[ExpectedHit], top: &[HitRecord], ks: &[usize]) -> QueryMetrics {
    let counts = compute_query_metrics(expected, top, ks);
    let mut m = QueryMetrics::default();
    for (k, r) in &counts.recall_at_k {
        m.recall_at_k.insert(*k, f(ratio(*r)));
    }
    m.reciprocal_rank = f(ratio(counts.reciprocal_rank));
    for (k, g) in &counts.ndcg_at_k {
        m.ndcg_at_k.insert(*k, f(gain(g)));
    }
    m
}

fn mean(values: &[Float64]) -> Float64 {
    f(values.iter().map(|v| val(*v)).sum::<f64>() / values.len() as f64)
}

fn aggregate(per_query: &[QueryResult], ks: &[usize]) -> AggregateMetrics {
    let mut agg = AggregateMetrics::default();
    if let Some(inputs) = aggregate_metrics(per_query, ks) {
        for (k, values) in &inputs.recall_at_k {
            agg.recall_at_k.insert(*k, mean(values));
        }
        agg.mrr = mean(&inputs.reciprocal_ranks);
        for (k, values) in &inputs.ndcg_at_k {
            agg.ndcg_at_k.insert(*k, mean(values));
        }
        agg.query_count = inputs.reciprocal_ranks.len();
    }
    agg
}

fn regressed(now: &EvalRun, prev: &EvalRun, threshold: f64) -> bool {
    let drops: Vec<Float64> = comparisons(&now.aggregate, &prev.aggregate)
        .iter()
        .map(|c| f(val(c.prev) - val(c.now)))
        .collect();
    is_regression(&drops, f(threshold))
}

fn text(run: &EvalRun, previous: Option<&EvalRun>, use_color: bool, threshold: f64) -> String {
    let lines: Vec<LineNumbers> = metric_lines(run, previous)
        .iter()
        .map(|l| LineNumbers {
            value: format!("{:.3}", val(l.now)),
            change: l.prev.map(|p| {
                let d = val(l.now) - val(p);
                (f(d), format!("{:.3}", d.abs()))
            }),
        })
        .collect();
    let rows: Vec<RowNumbers> = query_rows(run, previous)
        .iter()
        .map(|r| RowNumbers {
            now: format!("{:.2}", val(r.now)),
            prev: r.prev.map(|p| (format!("{:.2}", val(p)), f(val(p) - val(r.now)))),
        })
        .collect();
    format_text(run, previous, use_color, f(threshold), &lines, &rows).unwrap()
}

fn digest(map: &HashMap<String, String>) -> String {
    let pairs: Vec<(String, String)> =
        map.iter().map(|(p, h)| (p.clone(), h.clone())).collect();
    corpus_digest(&pairs)
}

fn hit(rank: usize, path: &str, heading: Option<&str>) -> HitRecord {
    HitRecord {
        rank,
        path: path.into(),
        heading: heading.map(|h| h.into()),
        score: s(1.0),
    }
}

fn exp(path: &str, heading: Option<&str>) -> ExpectedHit {
    ExpectedHit {
        path: path.into(),
        heading: heading.map(|h| h.into()),
    }
}

fn at(secs: i64) -> Timestamp {
    Timestamp { secs, nanos: 0 }
}

#[test]
fn test_types_compile() {
    let _ = ExpectedHit {
        path: "x".into(),
        heading: None,
    };
}

#[test]
fn test_is_hit_path_only() {
    assert!(is_hit(&exp("a.md", None), &hit(1, "a.md", Some("H1"))));
    assert!(!is_hit(&exp("a.md", None), &hit(1, "b.md", Some("H1"))));
}

#[test]
fn test_is_hit_heading_match_case_and_whitespace() {
    assert!(is_hit(
        &exp("a.md", Some("Data Flow")),
        &hit(1, "a.md", Some("  data flow "))
    ));
}

#[test]
fn test_is_hit_heading_mismatch() {
    assert!(!is_hit(&exp("a.md", Some("X")), &hit(1, "a.md", Some("Y"))));
}

#[test]
fn an_expected_heading_needs_a_heading() {
    assert!(!is_hit(&exp("a.md", Some("X")), &hit(1, "a.md", None)));
    assert!(is_hit(&exp("a.md", None), &hit(1, "a.md", None)));
    assert!(is_hit_given(&exp("a.md", Some("X")), &hit(1, "a.md", Some("Y")), true));
    assert!(!is_hit_given(&exp("a.md", Some("X")), &hit(1, "a.md", None), true));
}

#[test]
fn headings_are_compared_in_lowercase_without_white_space_around() {
    assert_eq!(normalize_heading("  Data\tFLOW\n"), "data\tflow");
    assert_eq!(normalize_heading("ÀÉ ß ΑΣ"), "àé ß ας");
    assert_eq!(normalize_heading("\u{3000}見出し\u{3000}"), "見出し");
}

#[test]
fn test_recall_at_k_all_hit() {
    let expected = vec![exp("a.md", None), exp("b.md", None)];
    let top = vec![
        hit(1, "a.md", None),
        hit(2, "b.md", None),
        hit(3, "c.md", None),
    ];
    assert!((recall(&expected, &top, 5) - 1.0).abs() < 1e-9);
}

#[test]
fn test_recall_at_k_partial_within_k() {
    let expected = vec![exp("a.md", None), exp("b.md", None)];
    let top = vec![
        hit(1, "a.md", None),
        hit(2, "x.md", None),
        hit(3, "b.md", None),
    ];
    assert!((recall(&expected, &top, 2) - 0.5).abs() < 1e-9);
}

#[test]
fn test_recall_at_k_no_expected_is_nan_sentinel() {
    let top = vec![hit(1, "a.md", None)];
    assert_eq!(recall(&[], &top, 5), 0.0);
}

#[test]
fn test_recall_at_k_empty_top() {
    let expected = vec![exp("a.md", None)];
    assert_eq!(recall(&expected, &[], 5), 0.0);
}

#[test]
fn recall_is_a_share_that_grows_with_the_depth() {
    let expected = vec![exp("a.md", None), exp("b.md", None), exp("z.md", None)];
    let top = vec![
        hit(1, "x.md", None),
        hit(2, "b.md", None),
        hit(3, "a.md", None),
    ];
    let shares: Vec<(usize, usize)> = (0..5)
        .map(|k| {
            let r = recall_at_k(&expected, &top, k);
            (r.numerator, r.denominator)
        })
        .collect();
    assert_eq!(shares, vec![(0, 3), (0, 3), (1, 3), (2, 3), (2, 3)]);
}

#[test]
fn test_reciprocal_rank_first_hit() {
    let expected = vec![exp("a.md", None)];
    let top = vec![
        hit(1, "x.md", None),
        hit(2, "a.md", None),
        hit(3, "b.md", None),
    ];
    assert!((rr(&expected, &top) - 0.5).abs() < 1e-9);
}

#[test]
fn test_reciprocal_rank_no_hit() {
    let expected = vec![exp("a.md", None)];
    let top = vec![hit(1, "x.md", None)];
    assert_eq!(rr(&expected, &top), 0.0);
}

#[test]
fn test_reciprocal_rank_empty() {
    assert_eq!(rr(&[], &[]), 0.0);
}

#[test]
fn test_reciprocal_rank_rank_zero_returns_zero_not_inf() {
    let expected = vec![exp("a.md", None)];
    let top = vec![hit(0, "a.md", None)];
    let r = rr(&expected, &top);
    assert_eq!(r, 0.0);
    assert!(r.is_finite());
}

#[test]
fn test_ndcg_ideal_order() {
    let expected = vec![exp("a.md", None), exp("b.md", None)];
    let top = vec![
        hit(1, "a.md", None),
        hit(2, "b.md", None),
        hit(3, "x.md", None),
    ];
    assert!((ndcg(&expected, &top, 5) - 1.0).abs() < 1e-9);
}

#[test]
fn test_ndcg_reversed() {
    let expected = vec![exp("a.md", None), exp("b.md", None)];
    let top = vec![
        hit(1, "x.md", None),
        hit(2, "a.md", None),
        hit(3, "b.md", None),
    ];
    let score = ndcg(&expected, &top, 5);
    assert!(
        score > 0.0 && score < 1.0,
        "expected 0<score<1, got {score}"
    );
}

#[test]
fn test_ndcg_no_hit() {
    let expected = vec![exp("a.md", None)];
    let top = vec![hit(1, "x.md", None), hit(2, "y.md", None)];
    assert_eq!(ndcg(&expected, &top, 5), 0.0);
}

#[test]
fn test_ndcg_empty_expected() {
    let top = vec![hit(1, "a.md", None)];
    assert_eq!(ndcg(&[], &top, 5), 0.0);
}

#[test]
fn test_ndcg_multi_chunk_per_expected_capped_at_one() {
    let expected = vec![exp("docs/X.md", None)];
    let top = vec![
        hit(1, "docs/X.md", Some("Section A")),
        hit(2, "docs/X.md", Some("Section B")),
        hit(3, "docs/X.md", Some("Section C")),
        hit(4, "other.md", None),
        hit(5, "other2.md", None),
    ];
    let score = ndcg(&expected, &top, 10);
    assert!(score <= 1.0 + 1e-9, "nDCG must not exceed 1.0, got {score}");
    assert!(
        (score - 1.0).abs() < 1e-9,
        "expected exactly 1.0, got {score}"
    );
}

#[test]
fn test_ndcg_two_expected_one_with_multiple_chunk_hits() {
    let expected = vec![exp("a.md", None), exp("b.md", None)];
    let top = vec![
        hit(1, "a.md", Some("Intro")),
        hit(2, "a.md", Some("Body")),
        hit(3, "b.md", Some("Concl")),
        hit(4, "x.md", None),
    ];
    let score = ndcg(&expected, &top, 5);
    assert!(score <= 1.0 + 1e-9, "nDCG must not exceed 1.0, got {score}");
}

#[test]
fn test_ndcg_duplicate_expected_entries_capped_at_one() {
    let expected = vec![exp("a.md", None), exp("a.md", None)];
    let top = vec![hit(1, "a.md", None)];
    let score = ndcg(&expected, &top, 5);
    assert!(score <= 1.0 + 1e-9, "nDCG must not exceed 1.0, got {score}");
    let idcg = 1.0 / 2f64.log2() + 1.0 / 3f64.log2();
    assert!(
        (score - 1.0 / idcg).abs() < 1e-9,
        "expected {}, got {score}",
        1.0 / idcg
    );
}

#[test]
fn test_ndcg_path_only_and_heading_expected_share_single_hit() {
    let expected = vec![exp("a.md", None), exp("a.md", Some("X"))];
    let top = vec![hit(1, "a.md", Some("X"))];
    let score = ndcg(&expected, &top, 5);
    assert!(score <= 1.0 + 1e-9, "nDCG must not exceed 1.0, got {score}");
}

#[test]
fn test_ndcg_heading_expected_preferred_over_path_only() {
    let expected = vec![exp("a.md", None), exp("a.md", Some("X"))];
    let top = vec![hit(1, "a.md", Some("X")), hit(2, "a.md", Some("Y"))];
    let score = ndcg(&expected, &top, 5);
    assert!(
        (score - 1.0).abs() < 1e-9,
        "expected exactly 1.0, got {score}"
    );
}

#[test]
fn gains_come_from_distinct_ranks_and_never_exceed_the_best_order() {
    let expected = vec![
        exp("a.md", None),
        exp("a.md", Some("X")),
        exp("b.md", None),
        exp("a.md", None),
    ];
    let top = vec![
        hit(1, "z.md", None),
        hit(2, "a.md", Some("Q")),
        hit(3, "a.md", Some("x")),
        hit(4, "b.md", None),
        hit(5, "b.md", None),
        hit(6, "a.md", None),
    ];
    let g = ndcg_at_k(&expected, &top, 6);
    assert_eq!(g.ranks, vec![2, 3, 4, 6]);
    assert_eq!(g.ideal, 4);
    for (i, r) in g.ranks.iter().enumerate() {
        assert!(*r > i);
    }
    for k in 0..8 {
        let found = recall_at_k(&expected, &top, k).numerator;
        assert_eq!(!ndcg_at_k(&expected, &top, k).ranks.is_empty(), found > 0);
    }
}

#[test]
fn test_compute_query_metrics() {
    let expected = vec![exp("a.md", None), exp("b.md", None)];
    let top = vec![
        hit(1, "a.md", None),
        hit(2, "x.md", None),
        hit(3, "b.md", None),
    ];
    let m = query_metrics(&expected, &top, &[1, 3, 5]);
    assert!((val(m.recall_at_k[&1]) - 0.5).abs() < 1e-9);
    assert!((val(m.recall_at_k[&3]) - 1.0).abs() < 1e-9);
    assert!((val(m.reciprocal_rank) - 1.0).abs() < 1e-9);
    let ndcg3 = val(m.ndcg_at_k[&3]);
    assert!(ndcg3 > 0.7 && ndcg3 < 1.0, "ndcg@3 = {ndcg3}");
}

#[test]
fn test_aggregate_metrics_mean() {
    let q1 = QueryResult {
        id: "1".into(),
        query: "q1".into(),
        expected: vec![exp("a.md", None)],
        top_k: vec![hit(1, "a.md", None)],
        metrics: query_metrics(&[exp("a.md", None)], &[hit(1, "a.md", None)], &[1, 5]),
    };
    let q2 = QueryResult {
        id: "2".into(),
        query: "q2".into(),
        expected: vec![exp("b.md", None)],
        top_k: vec![hit(1, "x.md", None)],
        metrics: query_metrics(&[exp("b.md", None)], &[hit(1, "x.md", None)], &[1, 5]),
    };
    let agg = aggregate(&[q1, q2], &[1, 5]);
    assert!((val(agg.recall_at_k[&1]) - 0.5).abs() < 1e-9);
    assert!((val(agg.mrr) - 0.5).abs() < 1e-9);
    assert_eq!(agg.query_count, 2);
}

#[test]
fn test_aggregate_metrics_skips_empty_expected() {
    let q_empty = QueryResult {
        id: "e".into(),
        query: "q".into(),
        expected: vec![],
        top_k: vec![hit(1, "a.md", None)],
        metrics: query_metrics(&[], &[hit(1, "a.md", None)], &[1]),
    };
    let q_ok = QueryResult {
        id: "o".into(),
        query: "q".into(),
        expected: vec![exp("a.md", None)],
        top_k: vec![hit(1, "a.md", None)],
        metrics: query_metrics(&[exp("a.md", None)], &[hit(1, "a.md", None)], &[1]),
    };
    let agg = aggregate(&[q_empty, q_ok], &[1]);
    assert_eq!(agg.query_count, 1);
    assert!((val(agg.recall_at_k[&1]) - 1.0).abs() < 1e-9);
}

#[test]
fn without_a_query_that_expects_something_there_are_no_means() {
    let q = QueryResult {
        id: "e".into(),
        query: "q".into(),
        expected: vec![],
        top_k: vec![],
        metrics: QueryMetrics::default(),
    };
    assert!(aggregate_metrics(&[q], &[1]).is_none());
    assert!(aggregate_metrics(&[], &[1]).is_none());
    let agg = AggregateMetrics::default();
    assert_eq!(agg.query_count, 0);
    assert_eq!(val(agg.mrr), 0.0);
}

fn fingerprint(k_values: Vec<usize>, golden_hash: &str) -> ConfigFingerprint {
    ConfigFingerprint {
        model: "m".into(),
        reranker: None,
        limit: 10,
        k_values,
        golden_hash: golden_hash.into(),
        metric_version: METRIC_VERSION,
        mmr: None,
        parent_retriever: None,
        fusion: None,
        context: None,
    }
}

fn run_of(fingerprint: ConfigFingerprint, aggregate: AggregateMetrics) -> EvalRun {
    EvalRun {
        corpus: None,
        timestamp: at(1_700_000_000),
        fingerprint,
        per_query: vec![],
        aggregate,
    }
}

fn sample_run(ts_secs: i64, recall10: f64) -> EvalRun {
    let mut agg = AggregateMetrics::default();
    agg.recall_at_k.insert(10, f(recall10));
    agg.query_count = 1;
    EvalRun {
        corpus: None,
        timestamp: at(ts_secs),
        fingerprint: ConfigFingerprint {
            model: "bge-m3".into(),
            k_values: vec![1, 5, 10],
            golden_hash: "deadbeef".into(),
            ..fingerprint(vec![], "")
        },
        per_query: vec![],
        aggregate: agg,
    }
}

#[test]
fn test_history_push_front_truncates_to_size() {
    let mut h = History::default();
    for i in 0..15 {
        h.push_front(sample_run(i as i64, 0.0), 10);
    }
    assert_eq!(h.runs.len(), 10);
    assert_eq!(h.runs.front().unwrap().timestamp.secs, 14);
    let kept: Vec<i64> = h.runs.iter().map(|r| r.timestamp.secs).collect();
    assert_eq!(kept, (5..15).rev().collect::<Vec<i64>>());
    h.push_front(sample_run(99, 0.0), 0);
    assert!(h.runs.is_empty());
    assert!(h.previous().is_none());
}

#[test]
fn test_format_text_single_run_has_aggregate_header() {
    let mut agg = AggregateMetrics::default();
    agg.recall_at_k.insert(1, f(0.5));
    agg.recall_at_k.insert(5, f(0.8));
    agg.ndcg_at_k.insert(5, f(0.7));
    agg.mrr = f(0.6);
    agg.query_count = 2;
    let run = run_of(
        ConfigFingerprint {
            model: "bge-m3".into(),
            ..fingerprint(vec![1, 5], "h")
        },
        agg,
    );
    let out = text(&run, None, false, 0.05);
    assert!(out.contains("model: bge-m3"));
    assert!(out.contains("queries: 2"));
    assert!(out.contains("recall@1"));
    assert!(out.contains("recall@5"));
    assert!(out.contains("MRR"));
    assert!(out.contains("nDCG@5"));
    assert!(!out.contains("previous run"));
}

#[test]
fn a_report_is_laid_out_line_by_line() {
    let mut agg = AggregateMetrics::default();
    agg.recall_at_k.insert(1, f(0.5));
    agg.recall_at_k.insert(10, f(0.8));
    agg.ndcg_at_k.insert(10, f(0.7));
    agg.mrr = f(0.6);
    agg.query_count = 2;
    let mut run = run_of(fingerprint(vec![1, 10], "h"), agg.clone());
    run.fingerprint.reranker = Some("bge-v2".into());
    run.corpus = Some(corpus(3, 9, "d"));
    run.per_query = vec![
        QueryResult {
            id: "missed".into(),
            query: "q".into(),
            expected: vec![exp("a.md", None)],
            top_k: vec![],
            metrics: QueryMetrics::default(),
        },
        QueryResult {
            id: "found".into(),
            query: "q".into(),
            expected: vec![exp("a.md", None)],
            top_k: vec![],
            metrics: query_metrics(&[exp("a.md", None)], &[hit(1, "a.md", None)], &[1, 10]),
        },
    ];
    assert_eq!(
        text(&run, None, false, 0.05),
        "kb-mcp eval — 2023-11-14T22:13:20+00:00\n  \
         model: m    reranker: bge-v2    limit: 10    queries: 2\n  \
         corpus: 3 docs / 9 chunks\n\n\
         Aggregate\n  \
         recall@1   0.500\n  \
         recall@10  0.800\n  \
         MRR        0.600\n  \
         nDCG@10    0.700\n\n\
         Per-query (regressions and misses, 1 of 2)\n  \
         ✗ missed                   recall@10: 0.00\n"
    );
    let mut prev = run.clone();
    prev.timestamp = at(0);
    prev.aggregate.recall_at_k.insert(1, f(0.25));
    prev.aggregate.mrr = f(0.9);
    prev.per_query[0].metrics = run.per_query[1].metrics.clone();
    assert_eq!(
        text(&run, Some(&prev), true, 0.05),
        "kb-mcp eval — 2023-11-14T22:13:20+00:00\n  \
         model: m    reranker: bge-v2    limit: 10    queries: 2\n  \
         corpus: 3 docs / 9 chunks\n\n\
         Aggregate (previous run: 1970-01-01T00:00:00+00:00)\n  \
         recall@1   0.500  (\x1b[32m↑ 0.250\x1b[0m)\n  \
         recall@10  0.800  (—       )\n  \
         MRR        0.600  (\x1b[31m↓ 0.300\x1b[0m)\n  \
         nDCG@10    0.700  (—       )\n\n\
         Per-query (regressions and misses, 1 of 2)\n  \
         ✗ missed                   recall@10: 1.00 → 0.00\n"
    );
}

#[test]
fn a_query_whose_recall_fell_is_marked() {
    let mut agg = AggregateMetrics::default();
    agg.query_count = 2;
    let mut run = run_of(fingerprint(vec![], "h"), agg);
    let two = [exp("a.md", None), exp("b.md", None)];
    run.per_query = vec![
        QueryResult {
            id: "half".into(),
            query: "q".into(),
            expected: two.to_vec(),
            top_k: vec![],
            metrics: query_metrics(&two, &[hit(1, "a.md", None)], &[10]),
        },
        QueryResult {
            id: "free".into(),
            query: "q".into(),
            expected: vec![],
            top_k: vec![],
            metrics: query_metrics(&[exp("a.md", None)], &[hit(1, "a.md", None)], &[10]),
        },
    ];
    let mut prev = run.clone();
    prev.per_query[0].metrics.recall_at_k.insert(10, f(1.0));
    let out = text(&run, Some(&prev), false, 0.05);
    assert!(
        out.contains("  ↓ half                     recall@10: 1.00 → 0.50\n"),
        "{out}"
    );
    assert!(
        out.contains("  · free                     recall@10: 1.00 → 1.00\n"),
        "{out}"
    );
    let out = text(&run, Some(&prev), false, 0.6);
    assert!(!out.contains("half"), "{out}");
}

#[test]
fn a_time_out_of_range_has_no_text() {
    let mut run = sample_run(100, 0.5);
    assert_eq!(
        at(100).to_rfc3339().as_deref(),
        Some("1970-01-01T00:01:40+00:00")
    );
    assert_eq!(
        Timestamp { secs: 0, nanos: 5_000_000 }.to_rfc3339().as_deref(),
        Some("1970-01-01T00:00:00.005+00:00")
    );
    run.timestamp = at(i64::MAX);
    assert!(run.timestamp.to_rfc3339().is_none());
    let lines: Vec<LineNumbers> = metric_lines(&run, None)
        .iter()
        .map(|_| LineNumbers { value: "0".into(), change: None })
        .collect();
    assert!(format_text(&run, None, false, f(0.05), &lines, &vec![]).is_none());
}

#[test]
fn changes_are_rendered_by_sign_size_and_threshold() {
    assert_eq!(render_diff(&None, f(0.05), true), "");
    assert_eq!(
        render_diff(&Some((f(-1e-10), "0.000".into())), f(0.05), true),
        "  (—       )"
    );
    assert_eq!(
        render_diff(&Some((f(0.01), "0.010".into())), f(0.05), true),
        "  (\x1b[90m↑ 0.010\x1b[0m)"
    );
    assert_eq!(
        render_diff(&Some((f(-0.2), "0.200".into())), f(0.05), false),
        "  (↓ 0.200)"
    );
    assert_eq!(
        render_diff(&Some((f(f64::NAN), "NaN".into())), f(0.05), true),
        "  (\x1b[90m↓ NaN\x1b[0m)"
    );
}

#[test]
fn a_report_shows_the_times_that_it_is_given() {
    let now = sample_run(2_000_000_000, 0.5);
    let before = sample_run(1_000_000_000, 0.4);
    let number = |text: &str, change: f64| LineNumbers {
        value: text.into(),
        change: Some((f(change), format!("{:.3}", change.abs()))),
    };
    let lines = vec![
        number("0.000", 0.0),
        number("0.000", 0.0),
        number("0.500", 0.1),
        number("0.000", 0.0),
        number("0.000", 0.0),
    ];
    let shown = format_text_given(
        &now,
        Some(&before),
        "today",
        "yesterday",
        false,
        f(0.05),
        &lines,
        &vec![],
    );
    assert_eq!(
        shown,
        "kb-mcp eval — today\n  model: bge-m3    reranker: none    limit: 10    queries: 1\n\n\
         Aggregate (previous run: yesterday)\n  recall@1   0.000  (—       )\n  recall@5   \
         0.000  (—       )\n  recall@10  0.500  (↑ 0.100)\n  MRR        0.000  (—       )\n  \
         nDCG@10    0.000  (—       )\n"
    );
}

#[test]
fn test_format_text_diff_arrows() {
    let mut a_now = AggregateMetrics::default();
    a_now.recall_at_k.insert(5, f(0.8));
    a_now.ndcg_at_k.insert(5, f(0.7));
    a_now.query_count = 1;
    let mut a_prev = AggregateMetrics::default();
    a_prev.recall_at_k.insert(5, f(0.6));
    a_prev.ndcg_at_k.insert(5, f(0.7));
    a_prev.query_count = 1;
    let now = run_of(fingerprint(vec![5], "h"), a_now);
    let prev = run_of(fingerprint(vec![5], "h"), a_prev);
    let out = text(&now, Some(&prev), false, 0.05);
    assert!(out.contains("↑") || out.contains("0.200"));
    assert!(out.contains("previous run"));
}

#[test]
fn test_format_text_fingerprint_mismatch_shows_warning() {
    let mut agg = AggregateMetrics::default();
    agg.recall_at_k.insert(5, f(0.8));
    agg.query_count = 1;
    let now = run_of(fingerprint(vec![5], "AAA"), agg.clone());
    let prev = run_of(fingerprint(vec![5], "BBB"), agg);
    let out = text(&now, Some(&prev), false, 0.05);
    assert!(out.contains("golden changed"));
}

#[test]
fn test_format_json_with_previous() {
    let mut a1 = AggregateMetrics::default();
    a1.recall_at_k.insert(5, f(0.8));
    let mut a0 = AggregateMetrics::default();
    a0.recall_at_k.insert(5, f(0.6));
    let now = run_of(fingerprint(vec![5], "h"), a1);
    let prev = run_of(fingerprint(vec![5], "h"), a0);
    let d = diff_inputs(&now, Some(&prev)).unwrap();
    assert_eq!(d.recall_at_k.len(), 1);
    assert_eq!(d.recall_at_k[0].0, 5);
    let diff5 = val(d.recall_at_k[0].1.now) - val(d.recall_at_k[0].1.prev);
    assert!((diff5 - 0.2).abs() < 1e-9);
}

#[test]
fn a_run_alone_has_no_diff() {
    let mut agg = AggregateMetrics::default();
    agg.recall_at_k.insert(1, f(0.5));
    agg.recall_at_k.insert(5, f(0.8));
    agg.mrr = f(0.75);
    agg.ndcg_at_k.insert(5, f(0.7));
    agg.query_count = 2;
    let run = run_of(fingerprint(vec![1, 5], "abc"), agg);
    assert_eq!(val(run.aggregate.mrr), 0.75);
    assert_eq!(val(run.aggregate.recall_at_k[&5]), 0.8);
    assert!(diff_inputs(&run, None).is_none());
}

#[test]
fn test_format_json_metric_version_mismatch_disables_diff() {
    let mut a1 = AggregateMetrics::default();
    a1.recall_at_k.insert(5, f(0.6));
    let mut a0 = AggregateMetrics::default();
    a0.recall_at_k.insert(5, f(0.8));
    let now = run_of(fingerprint(vec![5], "h"), a1);
    let prev = run_of(
        ConfigFingerprint {
            metric_version: 1,
            ..fingerprint(vec![5], "h")
        },
        a0,
    );
    assert!(
        diff_inputs(&now, Some(&prev)).is_none(),
        "diff must be null across metric versions"
    );
}

#[test]
fn a_diff_lists_the_depths_in_order_with_zero_for_what_was_missing() {
    let mut a1 = AggregateMetrics::default();
    for (k, v) in [(10usize, 0.9), (1, 0.1), (5, 0.5)] {
        a1.recall_at_k.insert(k, f(v));
        a1.ndcg_at_k.insert(k, f(v / 2.0));
    }
    a1.mrr = f(0.25);
    let mut a0 = AggregateMetrics::default();
    a0.recall_at_k.insert(5, f(0.4));
    let now = run_of(fingerprint(vec![5], "h"), a1);
    let prev = run_of(fingerprint(vec![5], "h"), a0);
    let d = diff_inputs(&now, Some(&prev)).unwrap();
    let listed: Vec<(usize, f64, f64)> = d
        .recall_at_k
        .iter()
        .map(|(k, c)| (*k, val(c.now), val(c.prev)))
        .collect();
    assert_eq!(listed, vec![(1, 0.1, 0.0), (5, 0.5, 0.4), (10, 0.9, 0.0)]);
    assert_eq!(d.ndcg_at_k.len(), 3);
    assert_eq!((val(d.mrr.now), val(d.mrr.prev)), (0.25, 0.0));
}

#[test]
fn test_format_text_metric_version_mismatch_disables_diff() {
    let mut a1 = AggregateMetrics::default();
    a1.recall_at_k.insert(5, f(0.6));
    a1.query_count = 1;
    let mut a0 = AggregateMetrics::default();
    a0.recall_at_k.insert(5, f(0.8));
    a0.query_count = 1;
    let now = run_of(fingerprint(vec![5], "h"), a1);
    let prev = run_of(
        ConfigFingerprint {
            metric_version: 1,
            ..fingerprint(vec![5], "h")
        },
        a0,
    );
    let out = text(&now, Some(&prev), false, 0.05);
    assert!(out.contains("diff disabled"), "got: {out}");
    assert!(!out.contains("golden changed"), "got: {out}");
    assert!(
        !out.contains("↓"),
        "must not render downward delta, got: {out}"
    );
}

fn synthetic_run(
    recall: BTreeMap<usize, f64>,
    mrr: f64,
    ndcg: BTreeMap<usize, f64>,
    golden_hash: &str,
) -> EvalRun {
    EvalRun {
        corpus: None,
        timestamp: at(1_700_000_000),
        fingerprint: ConfigFingerprint {
            model: "bge-small-en-v1.5".into(),
            k_values: recall.keys().copied().collect(),
            golden_hash: golden_hash.into(),
            ..fingerprint(vec![], "")
        },
        per_query: vec![],
        aggregate: AggregateMetrics {
            recall_at_k: recall.iter().map(|(k, v)| (*k, f(*v))).collect(),
            mrr: f(mrr),
            ndcg_at_k: ndcg.iter().map(|(k, v)| (*k, f(*v))).collect(),
            query_count: 0,
        },
    }
}

fn map_one(k: usize, v: f64) -> BTreeMap<usize, f64> {
    let mut m = BTreeMap::new();
    m.insert(k, v);
    m
}

#[test]
fn test_is_regression_improvement_returns_false() {
    let prev = synthetic_run(map_one(5, 0.7), 0.6, map_one(10, 0.5), "h");
    let now = synthetic_run(map_one(5, 0.8), 0.7, map_one(10, 0.6), "h");
    assert!(!regressed(&now, &prev, 0.05));
}

#[test]
fn test_is_regression_no_change_returns_false() {
    let prev = synthetic_run(map_one(5, 0.7), 0.6, map_one(10, 0.5), "h");
    let now = synthetic_run(map_one(5, 0.7), 0.6, map_one(10, 0.5), "h");
    assert!(!regressed(&now, &prev, 0.05));
}

#[test]
fn test_is_regression_within_threshold_returns_false() {
    let prev = synthetic_run(map_one(5, 0.7), 0.6, map_one(10, 0.5), "h");
    let now = synthetic_run(map_one(5, 0.66), 0.6, map_one(10, 0.5), "h");
    assert!(!regressed(&now, &prev, 0.05));
}

#[test]
fn test_is_regression_recall_drop_returns_true() {
    let prev = synthetic_run(map_one(5, 0.8), 0.6, map_one(10, 0.5), "h");
    let now = synthetic_run(map_one(5, 0.6), 0.6, map_one(10, 0.5), "h");
    assert!(regressed(&now, &prev, 0.05));
}

#[test]
fn test_is_regression_mrr_drop_returns_true() {
    let prev = synthetic_run(map_one(5, 0.7), 0.9, map_one(10, 0.5), "h");
    let now = synthetic_run(map_one(5, 0.7), 0.8, map_one(10, 0.5), "h");
    assert!(regressed(&now, &prev, 0.05));
}

#[test]
fn test_is_regression_ndcg_drop_returns_true() {
    let prev = synthetic_run(map_one(5, 0.7), 0.6, map_one(10, 0.9), "h");
    let now = synthetic_run(map_one(5, 0.7), 0.6, map_one(10, 0.7), "h");
    assert!(regressed(&now, &prev, 0.05));
}

#[test]
fn test_is_regression_non_finite_returns_false() {
    let prev = synthetic_run(map_one(5, f64::NAN), 0.6, map_one(10, 0.5), "h");
    let now = synthetic_run(map_one(5, 0.0), 0.6, map_one(10, 0.5), "h");
    assert!(!regressed(&now, &prev, 0.05));
    assert!(comparisons(&now.aggregate, &prev.aggregate).is_empty());
    assert!(comparisons(&now.aggregate, &now.aggregate).iter().all(|c| c.now == c.prev));
}

#[test]
fn nothing_is_compared_with_a_run_that_is_not_finite() {
    let now = synthetic_run(map_one(5, 0.1), 0.6, map_one(10, 0.5), "h");
    let sound = synthetic_run(map_one(5, 0.9), 0.6, map_one(10, 0.5), "h");
    assert!(regressed(&now, &sound, 0.05));
    assert_eq!(comparisons(&now.aggregate, &sound.aggregate).len(), 3);
    for bad in [f64::NAN, f64::INFINITY, f64::NEG_INFINITY] {
        let in_mrr = synthetic_run(map_one(5, 0.9), bad, map_one(10, 0.5), "h");
        let in_gain = synthetic_run(map_one(5, 0.9), 0.6, map_one(10, bad), "h");
        let mut elsewhere = synthetic_run(map_one(5, 0.9), 0.6, map_one(10, 0.5), "h");
        elsewhere.aggregate.recall_at_k.insert(7, f(bad));
        for prev in [in_mrr, in_gain, elsewhere] {
            assert!(comparisons(&now.aggregate, &prev.aggregate).is_empty());
            assert!(!regressed(&now, &prev, 0.05));
        }
    }
    let broken_now = synthetic_run(map_one(5, 0.1), f64::NAN, map_one(10, 0.5), "h");
    assert!(regressed(&broken_now, &sound, 0.05));
}

#[test]
fn test_normalize_eval_limit_and_k_matches_the_retrieval_cap() {
    let cap = SEARCH_LIMIT_MAX;
    let (l1, k1) = normalize_eval_limit_and_k(1001, &[1, 5, 2000]);
    let (l2, k2) = normalize_eval_limit_and_k(2000, &[1, 5, 5000]);
    assert_eq!(l1, cap);
    assert_eq!(l1, l2, "equivalent runs must share the effective limit");
    assert_eq!(k1, vec![1, 5, cap as usize]);
    assert_eq!(k1, k2, "equivalent runs must share the effective k list");
    let (l3, k3) = normalize_eval_limit_and_k(10, &[1, 5, 10]);
    assert_eq!(l3, 10);
    assert_eq!(k3, vec![1, 5, 10]);
}

#[test]
fn test_normalize_eval_keeps_k_above_the_requested_limit() {
    let (limit, k) = normalize_eval_limit_and_k(5, &[10]);
    assert_eq!(limit, 5);
    assert_eq!(
        k,
        vec![10],
        "k must not be clamped down to the requested limit"
    );
}

#[test]
fn test_normalize_eval_dedups_k_collapsed_by_the_cap() {
    let cap = SEARCH_LIMIT_MAX as usize;
    let (_, collapsed) = normalize_eval_limit_and_k(10, &[1001, 2000]);
    let (_, plain) = normalize_eval_limit_and_k(10, &[cap]);
    assert_eq!(collapsed, vec![cap]);
    assert_eq!(
        collapsed, plain,
        "equivalent k lists must normalize identically"
    );
    let (_, unsorted) = normalize_eval_limit_and_k(10, &[10, 1, 5, 5]);
    assert_eq!(unsorted, vec![1, 5, 10]);
}

#[test]
fn retrieval_goes_as_deep_as_the_deepest_measure() {
    assert_eq!(retrieval_depth(5, &vec![1, 10, 3]), 10);
    assert_eq!(retrieval_depth(20, &vec![1, 10]), 20);
    assert_eq!(retrieval_depth(5, &vec![]), 10);
    assert_eq!(clamp_search_limit(0), 0);
    assert_eq!(clamp_search_limit(1000), 1000);
    assert_eq!(clamp_search_limit(u32::MAX), 1000);
}

#[test]
fn test_previous_compatible_matching_fingerprint() {
    let mut h = History::default();
    let prev = synthetic_run(map_one(5, 0.7), 0.6, map_one(10, 0.5), "golden_xyz");
    let now = synthetic_run(map_one(5, 0.6), 0.6, map_one(10, 0.5), "golden_xyz");
    h.push_front(prev, 10);
    assert!(h.previous_compatible(&now).is_some());
}

#[test]
fn test_previous_compatible_mismatched_fingerprint_returns_none() {
    let mut h = History::default();
    let prev = synthetic_run(map_one(5, 0.9), 0.9, map_one(10, 0.9), "golden_OLD");
    let now = synthetic_run(map_one(5, 0.5), 0.5, map_one(10, 0.5), "golden_NEW");
    h.push_front(prev, 10);
    assert!(h.previous_compatible(&now).is_none());
}

#[test]
fn test_previous_compatible_rejects_old_metric_version() {
    let mut h = History::default();
    let mut prev = synthetic_run(map_one(5, 0.9), 0.9, map_one(10, 0.9), "golden_xyz");
    prev.fingerprint.metric_version = 1;
    let now = synthetic_run(map_one(5, 0.5), 0.5, map_one(10, 0.5), "golden_xyz");
    h.push_front(prev, 10);
    assert!(h.previous_compatible(&now).is_none());
    assert_eq!(legacy_metric_version(), 1);
}

fn from_config(cfg: &Config) -> ConfigFingerprint {
    ConfigFingerprint::from_config(
        cfg,
        "bge-m3".to_string(),
        None,
        10,
        vec![1, 5, 10],
        "deadbeef".to_string(),
    )
}

fn with_search(search: SearchConfig) -> Config {
    let mut cfg = Config::default();
    cfg.search = Some(search);
    cfg
}

#[test]
fn test_fingerprint_from_config_sets_current_metric_version() {
    let fp = from_config(&Config::default());
    assert_eq!(fp.metric_version, METRIC_VERSION);
}

#[test]
fn test_fingerprint_mmr_off_serializes_as_none() {
    let mut search = SearchConfig::default();
    search.mmr.enabled = false;
    let fp = from_config(&with_search(search));
    assert!(fp.mmr.is_none());
}

#[test]
fn test_fingerprint_mmr_on_serializes_as_some() {
    let mut search = SearchConfig::default();
    search.mmr = MmrConfig {
        enabled: true,
        lambda: s(0.5),
        same_doc_penalty: s(0.1),
    };
    let fp = from_config(&with_search(search));
    assert_eq!(
        fp.mmr,
        Some(MmrFingerprint {
            lambda: s(0.5),
            same_doc_penalty: s(0.1)
        })
    );
}

#[test]
fn test_fingerprint_parent_retriever_off_serializes_as_none() {
    let fp = from_config(&with_search(SearchConfig::default()));
    assert!(fp.parent_retriever.is_none());
}

#[test]
fn test_fingerprint_parent_retriever_on_serializes_as_some() {
    let mut search = SearchConfig::default();
    search.parent_retriever = ParentRetrieverConfig {
        enabled: true,
        whole_doc_threshold_tokens: 50,
        max_expanded_tokens: 1500,
    };
    let fp = from_config(&with_search(search));
    assert_eq!(
        fp.parent_retriever,
        Some(ParentRetrieverFingerprint {
            whole_doc_threshold_tokens: 50,
            max_expanded_tokens: 1500
        })
    );
}

#[test]
fn test_fingerprint_fusion_is_none_for_builtin_default() {
    let fp = from_config(&Config::default());
    assert!(fp.fusion.is_none(), "builtin default must not be recorded");
    let mut search = SearchConfig::default();
    search.fusion.rrf_k = s(60.0);
    search.fusion.bm25_heading_weight = s(2.0);
    let fp = from_config(&with_search(search));
    assert!(fp.fusion.is_none());
    assert!(fp.same(&from_config(&Config::default())));
}

#[test]
fn test_fingerprint_fusion_is_recorded_when_tuned() {
    let mut search = SearchConfig::default();
    search.fusion = FusionConfig {
        rrf_k: s(10.0),
        bm25_heading_weight: s(4.0),
        ..FusionConfig::default()
    };
    let fp = from_config(&with_search(search));
    assert_eq!(
        fp.fusion,
        Some(FusionFingerprint {
            rrf_k: s(10.0),
            bm25_heading_weight: s(4.0),
            bm25_context_weight: s(1.0),
            bm25_content_weight: s(1.0),
        })
    );
    assert!(!fp.same(&from_config(&Config::default())));
}

#[test]
fn test_fingerprint_context_is_none_when_contextual_is_off() {
    let fp = from_config(&Config::default());
    assert!(
        fp.context.is_none(),
        "contextual off must not be recorded, so old baselines stay comparable"
    );
    let mut cfg = Config::default();
    cfg.contextual = Some(ContextualConfig { enabled: false });
    let fp = from_config(&cfg);
    assert!(fp.context.is_none(), "explicit off is still off");
}

#[test]
fn test_fingerprint_context_on_is_incompatible_with_context_off() {
    let mut cfg = Config::default();
    cfg.contextual = Some(ContextualConfig { enabled: true });
    let with_context = from_config(&cfg);
    let ctx = with_context
        .context
        .as_ref()
        .expect("contextual on must be recorded");
    assert_eq!(ctx.mode, "static");
    let without_context = from_config(&Config::default());
    assert!(
        !with_context.same(&without_context),
        "runs on either side of a context-mode switch must not compare as compatible"
    );
}

#[test]
fn the_conditions_of_a_run_are_those_that_were_in_force() {
    let search = SearchConfig::default();
    let plain = ConfigFingerprint::from_run(
        &SearchOverrides::default(),
        &search,
        None,
        "bge-m3".into(),
        None,
        10,
        vec![1, 5, 10],
        "deadbeef".into(),
    );
    assert!(plain.same(&from_config(&with_search(search))));
    let asked = ConfigFingerprint::from_run(
        &SearchOverrides {
            mmr: Some(true),
            mmr_lambda: Some(s(0.25)),
            mmr_same_doc_penalty: None,
            parent_retriever: Some(true),
        },
        &search,
        Some(ContextMode::Static),
        "bge-m3".into(),
        Some("bge-v2-m3".into()),
        10,
        vec![1, 5, 10],
        "deadbeef".into(),
    );
    assert_eq!(
        asked.mmr,
        Some(MmrFingerprint {
            lambda: s(0.25),
            same_doc_penalty: s(0.0)
        })
    );
    assert_eq!(
        asked.parent_retriever,
        Some(ParentRetrieverFingerprint {
            whole_doc_threshold_tokens: 100,
            max_expanded_tokens: 2000
        })
    );
    assert_eq!(asked.context.as_ref().unwrap().mode, "static");
    assert!(!asked.same(&plain));
    let off = ConfigFingerprint::from_run(
        &SearchOverrides::default(),
        &search,
        Some(ContextMode::Off),
        "bge-m3".into(),
        None,
        10,
        vec![1, 5, 10],
        "deadbeef".into(),
    );
    assert!(off.context.is_none());
    assert!(off.same(&plain));
}

#[test]
fn each_condition_decides_whether_runs_compare() {
    let base = fingerprint(vec![1, 5], "h");
    assert!(base.same(&base.clone()));
    let mut changed: Vec<ConfigFingerprint> = Vec::new();
    for i in 0..10 {
        let mut other = base.clone();
        match i {
            0 => other.model = "n".into(),
            1 => other.reranker = Some("r".into()),
            2 => other.limit = 11,
            3 => other.k_values = vec![5, 1],
            4 => other.golden_hash = "g".into(),
            5 => other.metric_version = 1,
            6 => {
                other.mmr = Some(MmrFingerprint {
                    lambda: s(0.7),
                    same_doc_penalty: s(0.0),
                })
            }
            7 => {
                other.parent_retriever = Some(ParentRetrieverFingerprint {
                    whole_doc_threshold_tokens: 1,
                    max_expanded_tokens: 2,
                })
            }
            8 => {
                other.fusion = Some(FusionFingerprint {
                    rrf_k: s(1.0),
                    bm25_heading_weight: s(1.0),
                    bm25_context_weight: s(1.0),
                    bm25_content_weight: s(1.0),
                })
            }
            _ => other.context = Some(ContextFingerprint { mode: "static".into() }),
        }
        changed.push(other);
    }
    for other in &changed {
        assert!(!base.same(other));
        assert!(!other.same(&base));
        assert!(other.same(&other.clone()));
    }
    let mut nan = base.clone();
    nan.mmr = Some(MmrFingerprint {
        lambda: s(f32::NAN),
        same_doc_penalty: s(0.0),
    });
    assert!(!nan.same(&nan.clone()));
}

fn corpus(documents: u32, chunks: u32, digest: &str) -> CorpusSnapshot {
    CorpusSnapshot {
        documents,
        chunks,
        digest: digest.into(),
    }
}

#[test]
fn test_corpus_change_does_not_disable_the_diff() {
    let mut now = sample_run(200, 0.50);
    let mut prev = sample_run(100, 0.90);
    now.corpus = Some(corpus(646, 11_215, "aaa"));
    prev.corpus = Some(corpus(642, 11_090, "bbb"));

    let mut h = History::default();
    h.push_front(prev.clone(), 10);
    assert!(
        h.previous_compatible(&now).is_some(),
        "a corpus change must leave the runs comparable"
    );

    let out = text(&now, Some(&prev), false, 0.05);
    assert!(
        !out.contains("diff disabled"),
        "corpus change must not disable the diff: {out}"
    );
    assert!(
        out.contains("↓"),
        "the 0.90 -> 0.50 drop must still be shown: {out}"
    );
}

#[test]
fn test_format_text_names_a_corpus_size_change() {
    let mut now = sample_run(200, 0.90);
    let mut prev = sample_run(100, 0.90);
    now.corpus = Some(corpus(646, 11_215, "aaa"));
    prev.corpus = Some(corpus(642, 11_090, "bbb"));

    let out = text(&now, Some(&prev), false, 0.05);
    assert!(out.contains("646 docs / 11215 chunks"), "{out}");
    assert!(out.contains("corpus changed since last run"), "{out}");
    assert!(out.contains("642 -> 646 documents"), "{out}");
    assert!(out.contains("11090 -> 11215 chunks"), "{out}");
}

#[test]
fn test_format_text_names_a_content_only_corpus_change() {
    let mut now = sample_run(200, 0.90);
    let mut prev = sample_run(100, 0.90);
    now.corpus = Some(corpus(642, 11_090, "aaa"));
    prev.corpus = Some(corpus(642, 11_090, "bbb"));

    let out = text(&now, Some(&prev), false, 0.05);
    assert!(out.contains("corpus changed since last run"), "{out}");
    assert!(out.contains("different contents"), "{out}");
}

#[test]
fn test_format_text_is_silent_when_the_corpus_is_unchanged() {
    let mut now = sample_run(200, 0.90);
    let mut prev = sample_run(100, 0.90);
    now.corpus = Some(corpus(642, 11_090, "same"));
    prev.corpus = Some(corpus(642, 11_090, "same"));

    let out = text(&now, Some(&prev), false, 0.05);
    assert!(out.contains("642 docs / 11090 chunks"), "{out}");
    assert!(
        !out.contains("corpus changed"),
        "an unchanged corpus must not be announced as changed: {out}"
    );
}

#[test]
fn test_corpus_digest_is_independent_of_map_order() {
    let pairs: Vec<(String, String)> = (0..64)
        .map(|i| (format!("dir{i:02}/note.md"), format!("hash{i:02}")))
        .collect();
    let forward: HashMap<String, String> = pairs.iter().cloned().collect();
    let reverse: HashMap<String, String> = pairs.iter().rev().cloned().collect();
    assert_eq!(digest(&forward), digest(&reverse));

    let mut edited = forward.clone();
    edited.insert("dir00/note.md".into(), "edited".into());
    assert_ne!(digest(&forward), digest(&edited));
}

#[test]
fn test_corpus_digest_notices_an_edit_that_leaves_the_path_set_alone() {
    let before: HashMap<String, String> = [("a.md".to_string(), "h1".to_string())]
        .into_iter()
        .collect();
    let after: HashMap<String, String> = [("a.md".to_string(), "h2".to_string())]
        .into_iter()
        .collect();
    assert_ne!(digest(&before), digest(&after));
}

#[test]
fn the_digest_is_the_sha256_of_the_sorted_listing() {
    assert_eq!(
        digest(&HashMap::new()),
        "e3b0c44298fc1c149afbf4c8996fb92427ae41e4649b934ca495991b7852b855"
    );
    assert_eq!(
        corpus_digest(&vec![
            ("b.md".to_string(), "2".to_string()),
            ("a.md".to_string(), "1".to_string())
        ]),
        GoldenSet::hash_bytes(b"a.md\x001\nb.md\x002\n")
    );
    assert_eq!(
        GoldenSet::hash_bytes(b"abc"),
        "ba7816bf8f01cfea414140de5dae2223b00361a396177a9cb410ff61f20015ad"
    );
}

#[test]
fn test_describe_corpus_change_distinguishes_counts_from_contents() {
    let now = corpus(646, 11_215, "aaa");

    let d = describe_corpus_change(Some(&now), Some(&corpus(642, 11_090, "bbb")))
        .expect("a count change must be described");
    assert!(d.contains("642 -> 646 documents"), "{d}");
    assert!(d.contains("11090 -> 11215 chunks"), "{d}");

    let d = describe_corpus_change(Some(&now), Some(&corpus(646, 11_215, "bbb")))
        .expect("a content-only change must be described");
    assert!(d.contains("different contents"), "{d}");

    assert!(describe_corpus_change(Some(&now), Some(&now.clone())).is_none());

    assert!(describe_corpus_change(Some(&now), None).is_none());
    assert!(describe_corpus_change(None, Some(&now)).is_none());
}

#[test]
fn test_is_regression_still_fires_when_the_corpus_changed() {
    let mut now = sample_run(200, 0.60);
    let mut prev = sample_run(100, 0.80);
    now.corpus = Some(corpus(646, 11_215, "aaa"));
    prev.corpus = Some(corpus(642, 11_090, "bbb"));
    assert!(
        regressed(&now, &prev, 0.05),
        "the corpus explains a drop; it must not excuse one"
    );
}

#[test]
fn test_format_text_does_not_claim_a_change_against_a_baseline_without_corpus() {
    let mut now = sample_run(200, 0.90);
    let prev = sample_run(100, 0.90);
    now.corpus = Some(corpus(646, 11_215, "aaa"));

    let out = text(&now, Some(&prev), false, 0.05);
    assert!(out.contains("646 docs / 11215 chunks"), "{out}");
    assert!(
        !out.contains("corpus changed"),
        "an unknown baseline must not be reported as a change: {out}"
    );
}

#[test]
fn test_corpus_digest_separates_path_from_hash() {
    let a: HashMap<String, String> = [("ab".to_string(), "cd".to_string())].into();
    let b: HashMap<String, String> = [("a".to_string(), "bcd".to_string())].into();
    assert_ne!(digest(&a), digest(&b));
}

#[test]
fn test_format_json_reports_corpus_changed() {
    let mut now = sample_run(200, 0.9);
    let mut prev = sample_run(100, 0.9);
    now.corpus = Some(corpus(646, 11_215, "aaa"));
    prev.corpus = Some(corpus(642, 11_090, "bbb"));
    assert_eq!(corpus_changed(&now, Some(&prev)), Some(true));
    assert_eq!(now.corpus.as_ref().unwrap().documents, 646);

    prev.corpus = now.corpus.clone();
    assert_eq!(corpus_changed(&now, Some(&prev)), Some(false));

    assert_eq!(corpus_changed(&now, None), None);
}

fn golden(id: Option<&str>, query: &str, path: &str) -> GoldenQuery {
    GoldenQuery {
        id: id.map(|i| i.into()),
        query: query.into(),
        expected: vec![exp(path, None)],
        tags: None,
    }
}

fn found(path: &str, score: f32) -> SearchHit {
    SearchHit {
        score: s(score),
        path: path.into(),
        title: None,
        heading: Some("H".into()),
        topic: None,
        date: None,
        tags: vec![],
        content: "text".into(),
        match_spans: None,
        expanded_from: None,
    }
}

#[test]
fn a_query_is_named_by_its_id_or_its_first_characters() {
    assert_eq!(query_id(&golden(Some("q1"), "hello", "a.md")), "q1");
    assert_eq!(query_id(&golden(None, "hello", "a.md")), "hello");
    let long = "あ".repeat(40);
    assert_eq!(query_id(&golden(None, &long, "a.md")), "あ".repeat(32));
}

#[test]
fn a_run_records_every_query_in_order() {
    let set = GoldenSet {
        defaults: None,
        queries: vec![
            golden(Some("one"), "first", "a.md"),
            golden(None, "second", "b.md"),
        ],
    };
    let mut session = EvalSession::start(set, 5000, &[5, 1, 5]);
    assert_eq!(session.limit, 1000);
    assert_eq!(session.k_values, vec![1, 5]);
    let mut seen = Vec::new();
    loop {
        let (top, metrics) = match session.next_query() {
            None => break,
            Some(q) => {
                seen.push(q.query.clone());
                let top = hit_records(&vec![found("x.md", 0.5), found("a.md", 0.25)]);
                let m = query_metrics(&q.expected, &top, &session.k_values);
                (top, m)
            }
        };
        session.record(top, metrics);
    }
    assert_eq!(seen, vec!["first", "second"]);
    let agg = aggregate(&session.results, &session.k_values);
    let conditions = ConfigFingerprint {
        limit: session.limit,
        ..fingerprint(session.k_values.clone(), "h")
    };
    let run = session.finish(
        at(7),
        conditions,
        2,
        3,
        &vec![("a.md".to_string(), "1".to_string())],
        agg,
    );
    assert_eq!(run.timestamp, at(7));
    assert_eq!(run.per_query.len(), 2);
    assert_eq!(run.per_query[0].id, "one");
    assert_eq!(run.per_query[1].id, "second");
    assert_eq!(run.per_query[0].top_k[1].rank, 2);
    assert_eq!(run.per_query[0].top_k[1].path, "a.md");
    assert_eq!(run.per_query[0].top_k[1].heading.as_deref(), Some("H"));
    assert_eq!(run.per_query[0].top_k[1].score, s(0.25));
    assert_eq!(val(run.per_query[0].metrics.recall_at_k[&5]), 1.0);
    assert_eq!(val(run.per_query[0].metrics.recall_at_k[&1]), 0.0);
    assert_eq!(val(run.aggregate.mrr), 0.25);
    assert_eq!(run.fingerprint.limit, 1000);
    assert_eq!(run.fingerprint.k_values, vec![1, 5]);
    for q in &run.per_query {
        assert!(q.metrics.recall_at_k.keys().eq(run.fingerprint.k_values.iter()));
        assert!(q.metrics.ndcg_at_k.keys().eq(run.fingerprint.k_values.iter()));
    }
    assert!(run.aggregate.recall_at_k.keys().eq(run.fingerprint.k_values.iter()));
    assert!(run.aggregate.ndcg_at_k.keys().eq(run.fingerprint.k_values.iter()));
    assert_eq!(run.aggregate.query_count, 2);
    let c = run.corpus.unwrap();
    assert_eq!((c.documents, c.chunks), (2, 3));
    assert_eq!(c.digest, GoldenSet::hash_bytes(b"a.md\x001\n"));
}

#[test]
fn a_run_that_expects_nothing_has_no_means() {
    let mut open = golden(Some("open"), "anything", "a.md");
    open.expected.clear();
    let set = GoldenSet {
        defaults: None,
        queries: vec![open],
    };
    let mut session = EvalSession::start(set, 10, &[5]);
    let top = hit_records(&vec![found("x.md", 0.5)]);
    let metrics = query_metrics(&[], &top, &session.k_values);
    assert!(metrics.recall_at_k.contains_key(&5));
    session.record(top, metrics);
    assert!(session.next_query().is_none());
    assert!(aggregate_metrics(&session.results, &session.k_values).is_none());
    let agg = aggregate(&session.results, &session.k_values);
    let run = session.finish(at(7), fingerprint(vec![5], "h"), 0, 0, &vec![], agg);
    assert_eq!(run.aggregate.query_count, 0);
    assert!(run.aggregate.recall_at_k.is_empty());
    assert!(run.aggregate.ndcg_at_k.is_empty());
    assert_eq!(val(run.aggregate.mrr), 0.0);
}

#[test]
fn a_first_hit_of_rank_zero_is_told_apart() {
    let expected = golden(None, "q", "a.md").expected;
    let mut top = hit_records(&vec![found("x.md", 0.5), found("a.md", 0.25)]);
    assert!(!first_hit_is_unranked(&expected, &top));
    top[0].rank = 0;
    assert!(!first_hit_is_unranked(&expected, &top));
    assert_eq!(ratio(reciprocal_rank(&expected, &top)), 0.5);
    top[1].rank = 0;
    assert!(first_hit_is_unranked(&expected, &top));
    assert_eq!(ratio(reciprocal_rank(&expected, &top)), 0.0);
    assert!(!first_hit_is_unranked(&[], &top));
    assert!(!first_hit_is_unranked(&expected, &[]));
}

#[test]
fn the_history_lies_in_the_knowledge_base() {
    let kb = PathName {
        root: Some("/".into()),
        parts: vec!["kb".into()],
    };
    assert_eq!(
        default_history_path(&kb).parts,
        vec!["kb".to_string(), ".kb-mcp-eval-history.json".to_string()]
    );
}
