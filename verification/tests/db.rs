//! The index: what is stored of a document, which candidates a search keeps, and
//! how two rankings are fused.

use kb_mcp::corpus::{snapshot_digest, SnapshotRow};
use kb_mcp::db::{
    matches_date_range, matches_tags_all, matches_tags_any, path_passes, stored_context_mode,
    CandidateRow, ChunkRow, CompiledPathGlobs, ContextMode, ExpandedRange, FusionParams,
    MatchSpan, SearchFilters, SearchHit, SearchResult, EMBEDDING_FETCH_BATCH,
};
use kb_mcp::eval::GoldenSet;
use kb_mcp::float::Float32;
use kb_mcp::search::{
    collect_candidates, fuse_rrf, fuse_rrf_ids, hybrid_pool, plan_fts_search, plan_vec_search,
    rank_entries, sanitize_fts_query, unbounded_pool, CandidateCollector,
};
use kb_mcp::store::{
    column_was_added_meanwhile, dim_text, embedding_batches, embedding_meta,
    ensure_vec_chunks_table, has_column, is_binary_extension,
    keeps_default_quality, parse_dim_from_create_sql,
    placeholders, rename_outcome, token_count, tokens_of_bytes, upsert_steps, vec_table_sql,
    verify_embedding_meta, DocumentRecord, DocumentStep, MetaCheck,
};
use kb_mcp::tags::{
    encode_tags, flatten, stored_failure_count, tags_or_failure, titles_of, TagFailures,
};

fn s(v: f32) -> Float32 {
    Float32::from_bits(v.to_bits())
}

fn val(v: Float32) -> f32 {
    f32::from_bits(v.to_bits())
}

fn row(id: i64, path: &str) -> CandidateRow {
    CandidateRow {
        chunk_id: id,
        score: s(0.1),
        content: "body".into(),
        heading: None,
        quality_score: s(1.0),
        document_id: id,
        path: path.into(),
        title: Some("t".into()),
        topic: None,
        date: None,
        category: None,
        tags_json: None,
        context_text: None,
    }
}

fn paths_kept(rows: Vec<CandidateRow>, limit: u32, filters: &SearchFilters<'_>) -> Vec<String> {
    let mut failures = TagFailures::new();
    collect_candidates(rows, limit, filters, &mut failures)
        .into_iter()
        .map(|(_, r)| r.path)
        .collect()
}

fn globs(pattern: &str) -> globset::GlobSet {
    globset::GlobSetBuilder::new()
        .add(globset::Glob::new(pattern).unwrap())
        .build()
        .unwrap()
}

fn owned(words: &[&str]) -> Vec<String> {
    words.iter().map(|w| w.to_string()).collect()
}

fn result(id: i64) -> SearchResult {
    SearchResult {
        score: s(0.0),
        content: String::new(),
        heading: None,
        document_id: id,
        path: format!("dummy-{}.md", id),
        title: None,
        topic: None,
        date: None,
        tags: Vec::new(),
        context_text: None,
    }
}

fn rrf_scores(vec_ids: &[i64], fts_ids: &[i64], k: f32) -> Vec<Float32> {
    rank_entries(vec_ids, fts_ids)
        .iter()
        .map(|e| {
            let mut score = 0.0f32;
            for rank in &e.ranks {
                score += 1.0 / (k + (*rank as f32) + 1.0);
            }
            s(score)
        })
        .collect()
}

#[test]
fn test_sanitize_fts_query() {
    assert_eq!(sanitize_fts_query("E0382"), Some("\"E0382\"".to_string()));
    assert_eq!(
        sanitize_fts_query("foo \"bar\" AND"),
        Some("\"foo \"\"bar\"\" AND\"".to_string())
    );
    assert_eq!(sanitize_fts_query(""), None);
    assert_eq!(sanitize_fts_query("   "), None);
    assert_eq!(sanitize_fts_query("ab"), None, "fewer than three characters");
    assert_eq!(
        sanitize_fts_query("エラー"),
        Some("\"エラー\"".to_string()),
        "three characters of any script will do"
    );
}

#[test]
fn test_parse_dim_from_create_sql() {
    let sql = "CREATE VIRTUAL TABLE vec_chunks USING vec0(\
               chunk_id INTEGER PRIMARY KEY, embedding float[1024])";
    assert_eq!(parse_dim_from_create_sql(sql), Some(1024));

    let sql2 = "CREATE VIRTUAL TABLE vec_chunks USING vec0(chunk_id, embedding float[384] )";
    assert_eq!(parse_dim_from_create_sql(sql2), Some(384));

    assert_eq!(parse_dim_from_create_sql("no float here"), None);
}

#[test]
fn a_declared_dimension_reads_back() {
    for dim in [0, 1, 384, 1024, 8192, u32::MAX] {
        assert_eq!(parse_dim_from_create_sql(&vec_table_sql(dim)), Some(dim));
        assert_eq!(
            embedding_meta(Some("m".into()), Some(&dim_text(dim))),
            Some(("m".to_string(), dim))
        );
    }
    assert_eq!(parse_dim_from_create_sql("float[ +7 ]"), Some(7));
    assert_eq!(parse_dim_from_create_sql("float[4294967296]"), None);
    assert_eq!(parse_dim_from_create_sql("float[x]"), None);
    assert_eq!(parse_dim_from_create_sql("float[12"), None);
}

#[test]
fn missing_titles_are_left_out() {
    assert_eq!(titles_of(Some(r#"["a",null,"b"]"#)), vec!["a", "b"]);
    assert!(titles_of(Some("broken")).is_empty());
    assert!(titles_of(None).is_empty());
    assert_eq!(
        flatten(&vec![None, Some("x".to_string()), None]),
        vec!["x"]
    );
}

#[test]
fn a_missing_set_of_globs_lets_everything_through() {
    assert!(path_passes(None, None));
    assert!(path_passes(Some(true), Some(false)));
    assert!(!path_passes(Some(false), None));
    assert!(!path_passes(Some(true), Some(true)));
    let cpg = CompiledPathGlobs {
        included: None,
        excluded: Some(globs("*.txt")),
    };
    assert!(cpg.matches("a.md"));
    assert!(!cpg.matches("a.txt"));
}

#[test]
fn an_empty_pool_of_tags_asks_nothing() {
    assert!(matches_tags_any(&owned(&[]), &[]));
    assert!(matches_tags_all(&owned(&[]), &[]));
    assert!(!matches_tags_any(&owned(&["a"]), &owned(&["b"])));
    assert!(!matches_tags_all(&owned(&["a"]), &owned(&["a", "b"])));
}

#[test]
fn dates_compare_as_texts_and_the_ends_are_inside() {
    assert!(matches_date_range(None, None, None));
    assert!(matches_date_range(Some("2026-01-01"), Some("2026-01-01"), None));
    assert!(matches_date_range(Some("2026-01-01"), None, Some("2026-01-01")));
    assert!(!matches_date_range(Some("2026-1-1"), None, Some("2026-01-31")));
    assert!(!matches_date_range(Some("2026"), Some("2026-01-01"), None));
}

#[test]
fn the_first_rows_that_pass_are_kept_and_reading_stops() {
    let rows: Vec<CandidateRow> = (1..=6)
        .map(|i| {
            let mut r = row(i, &format!("{i}.md"));
            r.topic = Some(if i % 2 == 0 { "even" } else { "odd" }.to_string());
            r.tags_json = Some("broken".into());
            r
        })
        .collect();
    let mut filters = SearchFilters::default();
    filters.topic = Some("even");
    let mut failures = TagFailures::new();
    let hits = collect_candidates(rows.clone(), 2, &filters, &mut failures);
    let ids: Vec<i64> = hits.iter().map(|(id, _)| *id).collect();
    assert_eq!(ids, vec![2, 4]);
    assert_eq!(failures.total(None), 2);
    let mut collector = CandidateCollector::new(2, filters.clone());
    let mut again = TagFailures::new();
    let mut read = 0;
    for r in rows {
        read += 1;
        if collector.offer(r, &mut again) {
            break;
        }
    }
    assert_eq!(read, 4);
    assert!(collector.full());
    assert_eq!(collector.hits.len(), 2);
}

#[test]
fn the_vector_index_is_never_asked_for_too_many() {
    let mut filters = SearchFilters::default();
    filters.min_quality = s(0.3);
    assert_eq!(plan_vec_search(81 * 5, &filters), 4050);
    assert_eq!(plan_vec_search(82 * 5, &filters), 4096);
    assert_eq!(plan_vec_search(u32::MAX, &SearchFilters::default()), 4096);
    assert_eq!(
        plan_fts_search("abc", u32::MAX, &filters, FusionParams::default())
            .unwrap()
            .fetch_limit,
        10_000
    );
    assert_eq!(hybrid_pool(2), 50);
    assert_eq!(hybrid_pool(100), 500);
    assert_eq!(hybrid_pool(u32::MAX), u32::MAX);
    assert_eq!(unbounded_pool(10), 50);
    assert_eq!(unbounded_pool(70), 70);
}

#[test]
fn a_full_text_search_does_not_depend_on_the_rank_constant() {
    let filters = SearchFilters::default();
    let a = plan_fts_search("hello", 10, &filters, FusionParams::default()).unwrap();
    let mut fusion = FusionParams::default();
    fusion.rrf_k = s(5.0);
    let b = plan_fts_search("hello", 10, &filters, fusion).unwrap();
    assert_eq!(format!("{a:?}"), format!("{b:?}"));
    assert!(plan_fts_search("ab", 10, &filters, fusion).is_none());
}

#[test]
fn test_search_hit_has_match_spans_field_default_none() {
    let r = SearchResult {
        score: s(0.1),
        content: "abc".into(),
        heading: None,
        document_id: 0,
        path: "x.md".into(),
        title: None,
        topic: None,
        date: None,
        tags: vec![],
        context_text: None,
    };
    let h: SearchHit = r.into();
    assert!(h.match_spans.is_none());
    assert!(h.expanded_from.is_none());
    assert_eq!((h.path.as_str(), h.content.as_str()), ("x.md", "abc"));
}

#[test]
fn spans_and_ranges_hold_what_they_are_given() {
    let span = MatchSpan { start: 1, end: 3 };
    assert_eq!((span.start, span.end), (1, 3));
    let adj = ExpandedRange::Adjacent {
        from_index: 1,
        to_index: 3,
    };
    assert_ne!(adj, ExpandedRange::WholeDocument { total_chunks: 7 });
    let chunk = ChunkRow::from_columns(4, "text".into(), Some(9), Some(2));
    assert_eq!((chunk.chunk_index, chunk.level), (4, Some(2)));
    assert_eq!(
        ChunkRow::from_columns(0, String::new(), None, Some(-1)).level,
        Some(255)
    );
    assert_eq!(
        ChunkRow::from_columns(0, String::new(), None, Some(258)).level,
        Some(2)
    );
    assert_eq!(ChunkRow::from_columns(0, String::new(), None, None).level, None);
}

#[test]
fn test_rrf_topk_tie_break_score_desc_id_asc() {
    let rows: Vec<(i64, SearchResult)> = [3, 1, 2, 5].iter().map(|id| (*id, result(*id))).collect();
    let given = vec![s(0.5), s(0.5), s(0.7), s(0.5)];
    let hits = fuse_rrf(&rows, &vec![], &given, Some(10));
    let ids: Vec<i64> = hits.iter().map(|(id, _)| *id).collect();
    assert_eq!(ids, vec![2, 1, 3, 5]);
}

#[test]
fn test_rrf_topk_no_truncation_when_limit_none() {
    let given: Vec<Float32> = (1..=10).map(|id| s(1.0 / id as f32)).collect();
    let rows: Vec<(i64, SearchResult)> = (1..=10).map(|id| (id, result(id))).collect();
    let hits = fuse_rrf(&rows, &vec![], &given, None);
    assert_eq!(hits.len(), 10, "limit=None should not truncate");
}

#[test]
fn the_order_of_the_input_does_not_show_in_the_ranking() {
    let forward: Vec<i64> = (0..20).collect();
    let backward: Vec<i64> = (0..20).rev().collect();
    let given = |ids: &[i64]| -> Vec<Float32> { ids.iter().map(|i| s((i % 4) as f32)).collect() };
    let one = fuse_rrf_ids(&forward, &[], &given(&forward), Some(7));
    let other = fuse_rrf_ids(&[], &backward, &given(&backward), Some(7));
    assert_eq!(one, other);
    let ids: Vec<i64> = one.iter().map(|e| e.0).collect();
    assert_eq!(ids, vec![3, 7, 11, 15, 19, 2, 6]);
    assert!(fuse_rrf_ids(&forward, &[], &given(&forward), Some(0)).is_empty());
    let nans = vec![s(f32::NAN); 20];
    let by_id: Vec<i64> = fuse_rrf_ids(&backward, &[], &nans, None).iter().map(|e| e.0).collect();
    assert_eq!(by_id, forward);
}

#[test]
fn fusion_keeps_every_chunk_once() {
    let vec_hits: Vec<(i64, SearchResult)> = [4, 9, 4].iter().map(|id| (*id, result(*id))).collect();
    let fts_hits: Vec<(i64, SearchResult)> = [9, 1].iter().map(|id| (*id, result(*id))).collect();
    let given = rrf_scores(&[4, 9, 4], &[9, 1], 60.0);
    assert_eq!(given.len(), 3);
    let all = fuse_rrf(&vec_hits, &fts_hits, &given, None);
    let mut ids: Vec<i64> = all.iter().map(|(id, _)| *id).collect();
    ids.sort();
    assert_eq!(ids, vec![1, 4, 9]);
    assert_eq!(fuse_rrf(&vec_hits, &fts_hits, &given, Some(2)).len(), 2);
}

#[test]
fn test_fusion_params_default_matches_legacy_constants() {
    let f = FusionParams::default();
    assert_eq!(val(f.rrf_k), 60.0);
    assert_eq!(val(f.bm25_heading_weight), 2.0);
    assert_eq!(val(f.bm25_context_weight), 1.0);
    assert_eq!(val(f.bm25_content_weight), 1.0);
    let g = f;
    assert_eq!(f, g);
}

#[test]
fn test_fuse_rrf_matches_legacy_rrf_topk() {
    let vec_ids = [3_i64, 1, 7, 2];
    let fts_ids = [7_i64, 5, 1];
    let vec_hits: Vec<(i64, SearchResult)> = vec_ids.iter().map(|id| (*id, result(*id))).collect();
    let fts_hits: Vec<(i64, SearchResult)> = fts_ids
        .iter()
        .map(|id| {
            let mut r = result(*id);
            r.path = format!("fts-{id}.md");
            (*id, r)
        })
        .collect();
    for limit in [None, Some(1_u32), Some(3), Some(100)] {
        let mut scores: std::collections::HashMap<i64, f32> = std::collections::HashMap::new();
        for (rank, id) in vec_ids.iter().enumerate() {
            *scores.entry(*id).or_insert(0.0) += 1.0 / (60.0 + (rank as f32) + 1.0);
        }
        for (rank, id) in fts_ids.iter().enumerate() {
            *scores.entry(*id).or_insert(0.0) += 1.0 / (60.0 + (rank as f32) + 1.0);
        }
        let mut expected: Vec<(i64, f32)> = scores.into_iter().collect();
        expected.sort_by(|a, b| b.1.partial_cmp(&a.1).unwrap().then_with(|| a.0.cmp(&b.0)));
        if let Some(n) = limit {
            expected.truncate(n as usize);
        }
        let fused = fuse_rrf(&vec_hits, &fts_hits, &rrf_scores(&vec_ids, &fts_ids, 60.0), limit);
        let fused_pairs: Vec<(i64, f32)> =
            fused.iter().map(|(id, r)| (*id, val(r.score))).collect();
        assert_eq!(expected, fused_pairs, "limit={limit:?}");
        for (id, r) in &fused {
            let path = if vec_ids.contains(id) {
                format!("dummy-{id}.md")
            } else {
                format!("fts-{id}.md")
            };
            assert_eq!(r.path, path, "a row of the vector side comes first");
        }
    }
}

#[test]
fn test_fuse_rrf_ids_is_rank_only() {
    let vec_ids = [10_i64, 20, 30];
    let fts_ids = [30_i64, 40];

    let k60 = fuse_rrf_ids(
        &vec_ids,
        &fts_ids,
        &rrf_scores(&vec_ids, &fts_ids, 60.0),
        None,
    );
    let k5 = fuse_rrf_ids(
        &vec_ids,
        &fts_ids,
        &rrf_scores(&vec_ids, &fts_ids, 5.0),
        None,
    );

    assert_eq!(k60[0].0, 30, "consensus doc wins at k=60: {k60:?}");
    assert_eq!(k5[0].0, 30, "consensus doc still wins at k=5: {k5:?}");
    assert!(
        val(k5[0].1) > val(k60[0].1),
        "smaller k must produce larger reciprocal-rank scores: {k5:?} vs {k60:?}"
    );
    let truncated = fuse_rrf_ids(
        &vec_ids,
        &fts_ids,
        &rrf_scores(&vec_ids, &fts_ids, 60.0),
        Some(2),
    );
    assert_eq!(truncated.len(), 2);
    let entries = rank_entries(&vec_ids, &fts_ids);
    assert_eq!(entries.len(), 4);
    assert_eq!((entries[2].id, entries[2].ranks.clone()), (30, vec![2, 0]));
}

#[test]
fn test_token_count_saturates_at_i32_max() {
    let huge_len: usize = (i32::MAX as usize + 1) * 4;
    assert_eq!(tokens_of_bytes(huge_len), i32::MAX, "must saturate, not wrap");
    let normal_len: usize = 1024 * 4;
    assert_eq!(tokens_of_bytes(normal_len), 1024_i32);
    assert_eq!(token_count("abcdefg"), 1);
    assert_eq!(token_count("日本語"), 2);
    assert_eq!(token_count(""), 0);
}

#[test]
fn test_parse_tags_failure_counter_increments_on_malformed_json() {
    let mut failures = TagFailures::new();
    assert_eq!(failures.total(None), 0);
    let _ = failures.parse_tags_json_recording(Some("not-a-json".into()));
    assert_eq!(failures.total(None), 1);
    let _ = failures.parse_tags_json_recording(Some("{broken".into()));
    assert_eq!(failures.total(None), 2);
}

#[test]
fn test_parse_tags_failure_counter_zero_for_valid_json() {
    let mut failures = TagFailures::new();
    assert_eq!(failures.total(None), 0);

    let v = failures.parse_tags_json_recording(Some(r#"["mcp","rust"]"#.into()));
    assert_eq!(v, vec!["mcp".to_string(), "rust".to_string()]);
    assert_eq!(failures.total(None), 0);

    let v = failures.parse_tags_json_recording(None);
    assert!(v.is_empty());
    assert_eq!(failures.total(None), 0);

    let v = failures.parse_tags_json_recording(Some(String::new()));
    assert!(v.is_empty());
    assert_eq!(failures.total(None), 0);
}

#[test]
fn failures_of_earlier_sessions_are_counted_too() {
    let mut failures = TagFailures::new();
    assert_eq!(failures.to_store(), None);
    let _ = failures.parse_tags_json_recording(Some("x".into()));
    assert_eq!(failures.to_store(), Some(1));
    assert_eq!(failures.total(stored_failure_count(Some("41"))), 42);
    assert_eq!(failures.total(Some(u64::MAX)), u64::MAX);
    assert_eq!(stored_failure_count(Some("many")), None);
    assert_eq!(stored_failure_count(None), None);
}

#[test]
fn tags_that_are_stored_read_back() {
    for tags in [owned(&[]), owned(&["a"]), owned(&["with \"quotes\"", "日本", "\n"])] {
        let mut failures = TagFailures::new();
        let json = encode_tags(&tags);
        assert!(!json.is_empty());
        assert_eq!(failures.parse_tags_json_recording(Some(json)), tags);
        assert_eq!(failures.total(None), 0);
    }
    assert_eq!(encode_tags(&owned(&["a", "b"])), r#"["a","b"]"#);
    assert_eq!(tags_or_failure(Ok(owned(&["a"]))), (owned(&["a"]), false));
}

#[test]
fn a_document_is_stored_with_its_tags_as_json() {
    let record = DocumentRecord::new(
        "a.md".into(),
        Some("A".into()),
        None,
        None,
        None,
        &owned(&["x", "y"]),
        Some("2026-01-01".into()),
        "h".into(),
        "2026-01-02T00:00:00+00:00".into(),
    );
    assert_eq!(record.path, "a.md");
    assert_eq!(record.tags_json, r#"["x","y"]"#);
    assert_eq!(record.content_hash, "h");
}

#[test]
fn binary_extensions_are_told_without_regard_to_case() {
    assert!(is_binary_extension("pdf", &owned(&["pdf"])));
    assert!(is_binary_extension("PDF", &owned(&["docx", "pdf"])));
    assert!(!is_binary_extension("md", &owned(&["pdf"])));
    assert!(!is_binary_extension("pdfx", &owned(&["pdf"])));
    assert!(!is_binary_extension("md", &owned(&[])));
}

#[test]
fn a_rating_of_one_is_not_stored() {
    assert!(keeps_default_quality(s(1.0)));
    assert!(!keeps_default_quality(s(f32::NAN)));
    for bits in 0x3f7f_ff00u32..0x3f80_0100 {
        let score = f32::from_bits(bits);
        assert_eq!(
            keeps_default_quality(s(score)),
            (score - 1.0).abs() < f32::EPSILON
        );
    }
    assert!(!keeps_default_quality(s(-1.0)));
}

#[test]
fn a_column_is_found_by_its_whole_name() {
    let names = owned(&["id", "heading", "level"]);
    assert!(has_column(&names, "level"));
    assert!(!has_column(&names, "lev"));
    assert!(column_was_added_meanwhile("duplicate column name: level"));
    assert!(!column_was_added_meanwhile("no such table: chunks"));
}

#[test]
fn a_snapshot_frames_every_field_with_its_length() {
    let chunk = |heading: &str, content: &str| SnapshotRow {
        path: "a.md".into(),
        chunk_index: 0,
        heading: Some(heading.into()),
        content: content.into(),
        context_text: None,
    };
    assert_ne!(
        snapshot_digest(&vec![chunk("a", "\0b")]),
        snapshot_digest(&vec![chunk("a\0", "b")])
    );
    assert_eq!(
        snapshot_digest(&vec![chunk("a", "b")]),
        snapshot_digest(&vec![chunk("a", "b")])
    );
    let mut bytes: Vec<u8> = Vec::new();
    for field in ["a.md", "-3", "", "text", "ctx"] {
        bytes.extend_from_slice(&(field.len() as u64).to_le_bytes());
        bytes.extend_from_slice(field.as_bytes());
    }
    let row = SnapshotRow {
        path: "a.md".into(),
        chunk_index: -3,
        heading: None,
        content: "text".into(),
        context_text: Some("ctx".into()),
    };
    assert_eq!(snapshot_digest(&vec![row]), GoldenSet::hash_bytes(&bytes));
}

#[test]
fn the_same_chunks_have_the_same_snapshot() {
    let chunk = |path: &str, index: i64, heading: Option<&str>, context: Option<&str>| {
        SnapshotRow {
            path: path.into(),
            chunk_index: index,
            heading: heading.map(str::to_string),
            content: "text".into(),
            context_text: context.map(str::to_string),
        }
    };
    let one = vec![
        chunk("a.md", 0, None, Some("ctx")),
        chunk("a.md", 1, Some("h"), None),
        chunk("b.md", 0, Some(""), None),
    ];
    let other = vec![
        chunk("a.md", 0, Some(""), Some("ctx")),
        chunk("a.md", 1, Some("h"), Some("")),
        chunk("b.md", 0, None, None),
    ];
    assert_eq!(snapshot_digest(&one), snapshot_digest(&other));
    assert_ne!(snapshot_digest(&one), snapshot_digest(&one[..2].to_vec()));
}

#[test]
fn a_refused_dimension_is_explained() {
    assert!(ensure_vec_chunks_table(Some(384), 384).unwrap().is_none());
    assert_eq!(
        ensure_vec_chunks_table(Some(384), 1024).unwrap_err().message(),
        "vec_chunks declared float[384] but runtime dim is 1024. \
         Run index with --force to rebuild."
    );
    let sql = ensure_vec_chunks_table(None, 1024).unwrap().unwrap();
    assert_eq!(sql, vec_table_sql(1024));
}

#[test]
fn a_model_is_recorded_once_and_then_kept() {
    assert_eq!(
        verify_embedding_meta(None, 0, "m", 384).unwrap(),
        MetaCheck::Record { migrates: false }
    );
    assert_eq!(
        verify_embedding_meta(None, 1, "m", 384).unwrap(),
        MetaCheck::Record { migrates: true }
    );
    let stored = Some(("m".to_string(), 384));
    assert_eq!(
        verify_embedding_meta(stored.clone(), 7, "m", 384).unwrap(),
        MetaCheck::Keep
    );
    assert!(verify_embedding_meta(stored, 0, "m", 1024).is_err());
    let other = Some(("bge-small-en-v1.5".to_string(), 384));
    assert_eq!(
        verify_embedding_meta(other, 0, "bge-m3", 1024).unwrap_err().message(),
        "embedding model mismatch.\n  DB was indexed with: bge-small-en-v1.5 (384 dim)\n  \
         Current runtime:     bge-m3 (1024 dim)\n\nRun `kb-mcp index --kb-path <path> --force \
         --model bge-m3` to rebuild the index, or switch back to the previous model."
    );
}

#[test]
fn half_a_model_is_none() {
    assert!(embedding_meta(Some("x".into()), None).is_none());
    assert!(embedding_meta(None, Some("384")).is_none());
    assert!(embedding_meta(Some("x".into()), Some("many")).is_none());
    assert!(embedding_meta(Some("x".into()), Some("4294967296")).is_none());
}

#[test]
fn modes_are_known_by_name() {
    for mode in [ContextMode::Static, ContextMode::Off] {
        assert_eq!(stored_context_mode(Some(mode.as_str())), Some(mode));
        assert_eq!(ContextMode::from_str_opt(mode.as_str()), Some(mode));
    }
    assert!(stored_context_mode(None).is_none());
    assert!(ContextMode::from_str_opt("Off").is_none());
}

#[test]
fn filters_make_a_search_ask_for_more() {
    let cpg = CompiledPathGlobs {
        included: Some(globs("docs/**")),
        excluded: None,
    };
    let mut filters = SearchFilters::default();
    assert!(!filters.has_any());
    assert_eq!(plan_vec_search(5, &filters), 5);
    filters.path_globs = Some(&cpg);
    assert!(filters.has_any());
    assert_eq!(plan_vec_search(5, &filters), 50);
    let request = plan_fts_search("hello", 10, &filters, FusionParams::default()).unwrap();
    assert_eq!((request.expression.as_str(), request.fetch_limit), ("\"hello\"", 100));
    let rows = vec![row(1, "docs/a.md"), row(2, "notes/b.md")];
    assert_eq!(paths_kept(rows, 5, &filters), vec!["docs/a.md"]);
}

#[test]
fn a_rename_needs_a_document() {
    assert_eq!(
        rename_outcome(0, "nope.md").unwrap_err().message(),
        "rename_document: no document with path 'nope.md' (rows updated: 0)"
    );
    assert!(rename_outcome(1, "nope.md").is_ok());
}

#[test]
fn storing_a_document_again_drops_what_hung_on_it() {
    assert_eq!(
        upsert_steps(Some(7)),
        vec![
            DocumentStep::DeleteVectors { document_id: 7 },
            DocumentStep::DeleteFullText { document_id: 7 },
            DocumentStep::DeleteChunks { document_id: 7 },
            DocumentStep::UpdateDocument { document_id: 7 },
        ]
    );
    assert_eq!(upsert_steps(None), vec![DocumentStep::InsertDocument]);
}

#[test]
fn batches_hold_every_id_in_order() {
    let efb = EMBEDDING_FETCH_BATCH;
    for n in [0, 1, efb - 1, efb, efb + 1, 3 * efb] {
        let ids: Vec<i64> = (0..n as i64).collect();
        let batches = embedding_batches(&ids);
        let again: Vec<i64> = batches.iter().flatten().copied().collect();
        assert_eq!(again, ids);
        assert!(batches.iter().all(|b| !b.is_empty() && b.len() <= efb));
    }
    assert_eq!(placeholders(3), "?1,?2,?3");
    assert_eq!(placeholders(1), "?1");
    assert_eq!(placeholders(0), "");
}
