//! The library's decisions on a small index: documents, chunks and full text in
//! SQLite, vectors in memory and searched by going through all of them.

use kb_mcp::db::{
    stored_context_mode, CandidateRow, CompiledPathGlobs, ContextMode, FusionParams,
    SearchFilters, SearchResult, TopicInfo, EMBEDDING_FETCH_BATCH,
};
use kb_mcp::float::Float32;
use kb_mcp::search::{
    fuse_rrf, hybrid_pool, plan_fts_search, plan_vec_search, rank_entries,
    unbounded_pool, CandidateCollector,
};
use kb_mcp::store::{
    dim_text, embedding_batches, embedding_meta, ensure_vec_chunks_table,
    parse_dim_from_create_sql, rename_outcome, token_count, upsert_steps, verify_embedding_meta,
    DocumentRecord, DocumentStep, MetaCheck,
};
use kb_mcp::tags::TagFailures;
use kb_mcp::walk::{seed_of_row, SeedRow};
use rusqlite::{Connection, OptionalExtension, Row};
use std::cell::RefCell;
use std::collections::{BTreeMap, HashMap};

fn s(v: f32) -> Float32 {
    Float32::from_bits(v.to_bits())
}

fn val(v: Float32) -> f32 {
    f32::from_bits(v.to_bits())
}

fn dummy_embedding(value: f32) -> Vec<f32> {
    vec![value; 384]
}

fn text<T>(r: rusqlite::Result<T>) -> Result<T, String> {
    r.map_err(|e| e.to_string())
}

type Hits = Vec<(i64, SearchResult)>;

struct Index {
    conn: Connection,
    vectors: RefCell<BTreeMap<i64, Vec<f32>>>,
    vec_table: RefCell<Option<String>>,
    failures: RefCell<TagFailures>,
}

fn db_with_384() -> Index {
    let db = Index::open_in_memory().unwrap();
    db.verify_embedding_meta("bge-small-en-v1.5", 384).unwrap();
    db
}

fn fts_count(db: &Index) -> u32 {
    db.conn
        .query_row("SELECT COUNT(*) FROM fts_chunks", [], |r| r.get(0))
        .unwrap()
}

fn candidate(row: &Row<'_>) -> rusqlite::Result<CandidateRow> {
    Ok(CandidateRow {
        chunk_id: row.get(0)?,
        score: s(row.get(1)?),
        content: row.get(2)?,
        heading: row.get(3)?,
        quality_score: s(row.get(4)?),
        document_id: row.get(5)?,
        path: row.get(6)?,
        title: row.get(7)?,
        topic: row.get(8)?,
        date: row.get(9)?,
        category: row.get(10)?,
        tags_json: row.get(11)?,
        context_text: row.get(12)?,
    })
}

impl Index {
    fn open_in_memory() -> Result<Self, String> {
        let conn = text(Connection::open_in_memory())?;
        text(conn.execute_batch(
            "CREATE TABLE index_meta (key TEXT PRIMARY KEY, value TEXT);
             CREATE TABLE documents (
                 id INTEGER PRIMARY KEY AUTOINCREMENT, path TEXT UNIQUE NOT NULL, title TEXT,
                 topic TEXT, category TEXT, depth TEXT, tags TEXT, date TEXT,
                 content_hash TEXT NOT NULL, last_indexed TEXT NOT NULL);
             CREATE TABLE chunks (
                 id INTEGER PRIMARY KEY AUTOINCREMENT, document_id INTEGER NOT NULL,
                 chunk_index INTEGER NOT NULL, heading TEXT, level INTEGER,
                 content TEXT NOT NULL, token_count INTEGER,
                 quality_score REAL NOT NULL DEFAULT 1.0, context_text TEXT);
             CREATE VIRTUAL TABLE fts_chunks USING fts5(
                 heading, context, content, content='', contentless_delete=1,
                 tokenize = \"trigram remove_diacritics 1 case_sensitive 0\");",
        ))?;
        Ok(Index {
            conn,
            vectors: RefCell::new(BTreeMap::new()),
            vec_table: RefCell::new(None),
            failures: RefCell::new(TagFailures::new()),
        })
    }

    fn count(&self, table: &str) -> Result<u32, String> {
        let sql = format!("SELECT COUNT(*) FROM {table}");
        text(self.conn.query_row(&sql, [], |r| r.get(0)))
    }

    fn document_count(&self) -> Result<u32, String> {
        self.count("documents")
    }

    fn chunk_count(&self) -> Result<u32, String> {
        self.count("chunks")
    }

    #[allow(clippy::too_many_arguments)]
    fn upsert_document(
        &self,
        path: &str,
        title: Option<&str>,
        topic: Option<&str>,
        category: Option<&str>,
        depth: Option<&str>,
        tags: &[String],
        date: Option<&str>,
        content_hash: &str,
    ) -> Result<i64, String> {
        let record = DocumentRecord::new(
            path.to_string(),
            title.map(str::to_string),
            topic.map(str::to_string),
            category.map(str::to_string),
            depth.map(str::to_string),
            &tags.to_vec(),
            date.map(str::to_string),
            content_hash.to_string(),
            "2026-01-01T00:00:00+00:00".to_string(),
        );
        let existing: Option<i64> = text(
            self.conn
                .query_row("SELECT id FROM documents WHERE path = ?1", (path,), |r| r.get(0))
                .optional(),
        )?;
        let mut id = existing;
        for step in upsert_steps(existing) {
            id = self.perform(step, &record)?.or(id);
        }
        id.ok_or_else(|| "nothing was stored".to_string())
    }

    fn perform(&self, step: DocumentStep, d: &DocumentRecord) -> Result<Option<i64>, String> {
        match step {
            DocumentStep::DeleteVectors { document_id } => {
                let mut stmt = text(
                    self.conn
                        .prepare("SELECT id FROM chunks WHERE document_id = ?1"),
                )?;
                let ids = text(stmt.query_map((document_id,), |r| r.get::<_, i64>(0)))?;
                for id in ids {
                    self.vectors.borrow_mut().remove(&text(id)?);
                }
            }
            DocumentStep::DeleteFullText { document_id } => {
                text(self.conn.execute(
                    "DELETE FROM fts_chunks WHERE rowid IN \
                     (SELECT id FROM chunks WHERE document_id = ?1)",
                    (document_id,),
                ))?;
            }
            DocumentStep::DeleteChunks { document_id } => {
                text(self.conn.execute(
                    "DELETE FROM chunks WHERE document_id = ?1",
                    (document_id,),
                ))?;
            }
            DocumentStep::UpdateDocument { document_id } => {
                text(self.conn.execute(
                    "UPDATE documents SET title = ?1, topic = ?2, category = ?3, depth = ?4, \
                     tags = ?5, date = ?6, content_hash = ?7, last_indexed = ?8 WHERE id = ?9",
                    (
                        &d.title,
                        &d.topic,
                        &d.category,
                        &d.depth,
                        &d.tags_json,
                        &d.date,
                        &d.content_hash,
                        &d.last_indexed,
                        document_id,
                    ),
                ))?;
            }
            DocumentStep::InsertDocument => {
                text(self.conn.execute(
                    "INSERT INTO documents (path, title, topic, category, depth, tags, date, \
                     content_hash, last_indexed) VALUES (?1, ?2, ?3, ?4, ?5, ?6, ?7, ?8, ?9)",
                    (
                        &d.path,
                        &d.title,
                        &d.topic,
                        &d.category,
                        &d.depth,
                        &d.tags_json,
                        &d.date,
                        &d.content_hash,
                        &d.last_indexed,
                    ),
                ))?;
                return Ok(Some(self.conn.last_insert_rowid()));
            }
        }
        Ok(None)
    }

    #[allow(clippy::too_many_arguments)]
    fn insert_chunk(
        &self,
        document_id: i64,
        chunk_index: i32,
        heading: Option<&str>,
        level: Option<u8>,
        content: &str,
        context: Option<&str>,
        embedding: &[f32],
        quality_score: f32,
    ) -> Result<i64, String> {
        if self.current_vec_dim()? != Some(embedding.len() as u32) {
            return Err("wrong dimension".to_string());
        }
        text(self.conn.execute(
            "INSERT INTO chunks (document_id, chunk_index, heading, level, content, \
             context_text, token_count, quality_score) VALUES (?1, ?2, ?3, ?4, ?5, ?6, ?7, ?8)",
            (
                document_id,
                chunk_index,
                heading,
                level.map(i64::from),
                content,
                context,
                token_count(content),
                quality_score,
            ),
        ))?;
        let id = self.conn.last_insert_rowid();
        self.vectors.borrow_mut().insert(id, embedding.to_vec());
        text(self.conn.execute(
            "INSERT INTO fts_chunks (rowid, heading, context, content) VALUES (?1, ?2, ?3, ?4)",
            (id, heading, context, content),
        ))?;
        Ok(id)
    }

    fn get_document_hash(&self, path: &str) -> Result<Option<String>, String> {
        let sql = "SELECT content_hash FROM documents WHERE path = ?1";
        text(self.conn.query_row(sql, (path,), |r| r.get(0)).optional())
    }

    fn all_path_hashes(&self) -> Result<HashMap<String, String>, String> {
        let mut stmt = text(self.conn.prepare("SELECT path, content_hash FROM documents"))?;
        let rows = text(stmt.query_map([], |r| Ok((r.get(0)?, r.get(1)?))))?;
        text(rows.collect())
    }

    fn rename_document(&self, old_path: &str, new_path: &str) -> Result<(), String> {
        let updated = text(self.conn.execute(
            "UPDATE documents SET path = ?1 WHERE path = ?2",
            (new_path, old_path),
        ))?;
        rename_outcome(updated, old_path).map_err(|e| e.message())
    }

    fn chunks_for_path(&self, path: &str) -> Result<Vec<(i64, Vec<f32>, SearchResult)>, String> {
        let mut stmt = text(self.conn.prepare(
            "SELECT c.id, c.content, c.heading, c.document_id, d.path, d.title, d.topic, d.date,
                    d.tags
             FROM chunks c JOIN documents d ON d.id = c.document_id
             WHERE d.path = ?1 ORDER BY c.chunk_index",
        ))?;
        let rows = text(stmt.query_map((path,), |r| {
            Ok(SeedRow {
                chunk_id: r.get(0)?,
                content: r.get(1)?,
                heading: r.get(2)?,
                document_id: r.get(3)?,
                path: r.get(4)?,
                title: r.get(5)?,
                topic: r.get(6)?,
                date: r.get(7)?,
                tags_json: r.get(8)?,
            })
        }))?;
        let mut out = Vec::new();
        for row in rows {
            let seed = seed_of_row(text(row)?, &mut self.failures.borrow_mut());
            let vector = self.vectors.borrow()[&seed.chunk_id].clone();
            out.push((seed.chunk_id, vector, seed.result));
        }
        Ok(out)
    }

    fn fetch_embeddings_by_chunk_ids(
        &self,
        ids: &[i64],
    ) -> Result<HashMap<i64, Vec<f32>>, String> {
        let vectors = self.vectors.borrow();
        let mut out = HashMap::new();
        for batch in embedding_batches(&ids.to_vec()) {
            assert!(!batch.is_empty() && batch.len() <= EMBEDDING_FETCH_BATCH);
            for id in batch {
                out.extend(vectors.get(&id).map(|v| (id, v.clone())));
            }
        }
        Ok(out)
    }

    fn collect(&self, rows: Vec<CandidateRow>, limit: u32, filters: &SearchFilters<'_>) -> Hits {
        let mut collector = CandidateCollector::new(limit, filters.clone());
        for row in rows {
            if collector.offer(row, &mut self.failures.borrow_mut()) {
                break;
            }
        }
        collector.hits
    }

    fn search_vec_candidates(
        &self,
        query: &[f32],
        limit: u32,
        filters: &SearchFilters<'_>,
    ) -> Result<Hits, String> {
        let mut nearest: Vec<(f32, i64)> = self
            .vectors
            .borrow()
            .iter()
            .map(|(id, v)| {
                let d: f32 = v.iter().zip(query).map(|(a, b)| (a - b) * (a - b)).sum();
                (d.sqrt(), *id)
            })
            .collect();
        nearest.sort_by(|a, b| a.0.partial_cmp(&b.0).unwrap());
        nearest.truncate(plan_vec_search(limit, filters) as usize);
        let mut rows = Vec::new();
        for (distance, id) in nearest {
            rows.push(text(self.conn.query_row(
                "SELECT c.id, ?2, c.content, c.heading, c.quality_score, c.document_id, d.path,
                        d.title, d.topic, d.date, d.category, d.tags, c.context_text
                 FROM chunks c JOIN documents d ON d.id = c.document_id WHERE c.id = ?1",
                (id, distance),
                candidate,
            ))?);
        }
        Ok(self.collect(rows, limit, filters))
    }

    fn search_fts_candidates(
        &self,
        query: &str,
        limit: u32,
        filters: &SearchFilters<'_>,
        fusion: FusionParams,
    ) -> Result<Hits, String> {
        let Some(request) = plan_fts_search(query, limit, filters, fusion) else {
            return Ok(Vec::new());
        };
        let mut stmt = text(self.conn.prepare(
            "SELECT c.id, bm25(fts_chunks, ?3, ?4, ?5), c.content, c.heading, c.quality_score,
                    c.document_id, d.path, d.title, d.topic, d.date, d.category, d.tags,
                    c.context_text
             FROM fts_chunks f
             JOIN chunks c ON c.id = f.rowid
             JOIN documents d ON d.id = c.document_id
             WHERE fts_chunks MATCH ?1
             ORDER BY bm25(fts_chunks, ?3, ?4, ?5)
             LIMIT ?2",
        ))?;
        let rows = text(stmt.query_map(
            (
                request.expression,
                request.fetch_limit,
                val(request.heading_weight),
                val(request.context_weight),
                val(request.content_weight),
            ),
            candidate,
        ))?;
        let rows = text(rows.collect::<rusqlite::Result<Vec<_>>>())?;
        Ok(self.collect(rows, limit, filters))
    }

    fn search_similar(
        &self,
        query: &[f32],
        limit: u32,
        filters: &SearchFilters<'_>,
    ) -> Result<Vec<SearchResult>, String> {
        let hits = self.search_vec_candidates(query, limit, filters)?;
        Ok(hits.into_iter().map(|(_, r)| r).collect())
    }

    fn fused(
        &self,
        query: &str,
        embedding: &[f32],
        pool: u32,
        limit: Option<u32>,
        filters: &SearchFilters<'_>,
        fusion: FusionParams,
    ) -> Result<Hits, String> {
        let vec_hits = self.search_vec_candidates(embedding, pool, filters)?;
        let fts_hits = self.search_fts_candidates(query, pool, filters, fusion)?;
        let ids = |hits: &Hits| -> Vec<i64> { hits.iter().map(|(id, _)| *id).collect() };
        let scores: Vec<Float32> = rank_entries(&ids(&vec_hits), &ids(&fts_hits))
            .iter()
            .map(|e| {
                let score: f32 = e
                    .ranks
                    .iter()
                    .map(|rank| 1.0 / (val(fusion.rrf_k) + (*rank as f32) + 1.0))
                    .sum();
                s(score)
            })
            .collect();
        Ok(fuse_rrf(&vec_hits, &fts_hits, &scores, limit))
    }

    fn search_hybrid_candidates(
        &self,
        query: &str,
        embedding: &[f32],
        limit: u32,
        filters: &SearchFilters<'_>,
        fusion: FusionParams,
    ) -> Result<Hits, String> {
        self.fused(query, embedding, hybrid_pool(limit), Some(limit), filters, fusion)
    }

    fn search_hybrid_candidates_unbounded(
        &self,
        query: &str,
        embedding: &[f32],
        desired: u32,
        filters: &SearchFilters<'_>,
        fusion: FusionParams,
    ) -> Result<Hits, String> {
        self.fused(query, embedding, unbounded_pool(desired), None, filters, fusion)
    }

    fn search_hybrid(
        &self,
        query: &str,
        embedding: &[f32],
        limit: u32,
        filters: &SearchFilters<'_>,
        fusion: FusionParams,
    ) -> Result<Vec<SearchResult>, String> {
        let hits = self.search_hybrid_candidates(query, embedding, limit, filters, fusion)?;
        Ok(hits.into_iter().map(|(_, r)| r).collect())
    }

    fn list_topics(&self) -> Result<Vec<TopicInfo>, String> {
        let mut stmt = text(self.conn.prepare(
            "SELECT category, topic, COUNT(*), MAX(last_indexed), json_group_array(title)
             FROM documents GROUP BY category, topic ORDER BY category, topic",
        ))?;
        let rows = text(stmt.query_map([], |r| {
            let titles: Option<String> = r.get(4)?;
            Ok(TopicInfo::from_row(
                r.get(0)?,
                r.get(1)?,
                r.get(2)?,
                r.get(3)?,
                titles.as_deref(),
            ))
        }))?;
        text(rows.collect())
    }

    fn meta(&self, key: &str) -> Result<Option<String>, String> {
        let sql = "SELECT value FROM index_meta WHERE key = ?1";
        text(self.conn.query_row(sql, (key,), |r| r.get(0)).optional())
    }

    fn set_meta(&self, key: &str, value: &str) -> Result<(), String> {
        let sql = "INSERT OR REPLACE INTO index_meta (key, value) VALUES (?1, ?2)";
        text(self.conn.execute(sql, (key, value))).map(|_| ())
    }

    fn read_embedding_meta(&self) -> Result<Option<(String, u32)>, String> {
        let dim = self.meta("embedding_dim")?;
        Ok(embedding_meta(self.meta("embedding_model")?, dim.as_deref()))
    }

    fn read_context_mode(&self) -> Result<Option<ContextMode>, String> {
        Ok(stored_context_mode(self.meta("context_mode")?.as_deref()))
    }

    fn write_context_mode(&self, mode: ContextMode) -> Result<(), String> {
        self.set_meta("context_mode", mode.as_str())
    }

    fn current_vec_dim(&self) -> Result<Option<u32>, String> {
        Ok(self
            .vec_table
            .borrow()
            .as_deref()
            .and_then(parse_dim_from_create_sql))
    }

    fn ensure_vec_chunks_table(&self, dim: u32) -> Result<(), String> {
        let statement =
            ensure_vec_chunks_table(self.current_vec_dim()?, dim).map_err(|e| e.message())?;
        if let Some(sql) = statement {
            *self.vec_table.borrow_mut() = Some(sql);
        }
        Ok(())
    }

    fn verify_embedding_meta(&self, model: &str, dim: u32) -> Result<(), String> {
        let stored = self.read_embedding_meta()?;
        let check = verify_embedding_meta(stored, self.chunk_count()?, model, dim)
            .map_err(|e| e.message())?;
        if let MetaCheck::Record { .. } = check {
            self.set_meta("embedding_model", model)?;
            self.set_meta("embedding_dim", &dim_text(dim))?;
        }
        self.ensure_vec_chunks_table(dim)
    }
}

#[test]
fn test_upsert_and_query_document() {
    let db = db_with_384();
    let id1 = db
        .upsert_document(
            "deep-dive/mcp/overview.md",
            Some("MCP Overview"),
            Some("mcp"),
            Some("deep-dive"),
            Some("1"),
            &["mcp".into(), "protocol".into()],
            Some("2026-04-16"),
            "hash_aaa",
        )
        .unwrap();
    assert_eq!(db.document_count().unwrap(), 1);
    db.insert_chunk(
        id1,
        0,
        Some("Intro"),
        None,
        "Hello MCP",
        None,
        &dummy_embedding(0.1),
        1.0,
    )
    .unwrap();
    assert_eq!(db.chunk_count().unwrap(), 1);
    let id2 = db
        .upsert_document(
            "deep-dive/mcp/overview.md",
            Some("MCP Overview v2"),
            Some("mcp"),
            Some("deep-dive"),
            Some("1"),
            &["mcp".into()],
            Some("2026-04-16"),
            "hash_bbb",
        )
        .unwrap();
    assert_eq!(id1, id2, "upsert must reuse the same row id");
    assert_eq!(db.document_count().unwrap(), 1, "still 1 document");
    assert_eq!(db.chunk_count().unwrap(), 0, "old chunks deleted on upsert");
}

#[test]
fn test_content_hash_check() {
    let db = Index::open_in_memory().unwrap();
    assert!(
        db.get_document_hash("does/not/exist.md").unwrap().is_none(),
        "non-existent path should return None"
    );
    db.upsert_document(
        "ai-news/2026-04-16.md",
        Some("AI News"),
        None,
        Some("ai-news"),
        None,
        &[],
        Some("2026-04-16"),
        "hash_xyz",
    )
    .unwrap();

    let hash = db
        .get_document_hash("ai-news/2026-04-16.md")
        .unwrap()
        .expect("should be Some");
    assert_eq!(hash, "hash_xyz");
}

#[test]
fn test_search_similar_executes_knn_query() {
    let db = db_with_384();

    let doc_id = db
        .upsert_document(
            "deep-dive/mcp/overview.md",
            Some("MCP Overview"),
            Some("mcp"),
            Some("deep-dive"),
            Some("1"),
            &[],
            Some("2026-04-16"),
            "h1",
        )
        .unwrap();
    db.insert_chunk(
        doc_id,
        0,
        Some("Intro"),
        None,
        "hello",
        None,
        &dummy_embedding(0.1),
        1.0,
    )
    .unwrap();
    db.insert_chunk(
        doc_id,
        1,
        Some("Body"),
        None,
        "world",
        None,
        &dummy_embedding(0.2),
        1.0,
    )
    .unwrap();
    let hits = db
        .search_similar(&dummy_embedding(0.1), 5, &SearchFilters::default())
        .unwrap();
    assert_eq!(hits.len(), 2, "both chunks should be returned");
    let hits = db
        .search_similar(
            &dummy_embedding(0.1),
            5,
            &SearchFilters {
                category: Some("deep-dive"),
                ..Default::default()
            },
        )
        .unwrap();
    assert_eq!(hits.len(), 2);
    let hits = db
        .search_similar(
            &dummy_embedding(0.1),
            5,
            &SearchFilters {
                topic: Some("no-such-topic"),
                ..Default::default()
            },
        )
        .unwrap();
    assert!(hits.is_empty());
}

#[test]
fn test_quality_filter_excludes_low_scored_chunks() {
    let db = db_with_384();
    let doc_id = db
        .upsert_document("q.md", Some("Q"), None, None, None, &[], None, "h")
        .unwrap();
    db.insert_chunk(
        doc_id,
        0,
        Some("high"),
        None,
        "rich body with plenty of content",
        None,
        &dummy_embedding(0.1),
        1.0,
    )
    .unwrap();
    db.insert_chunk(
        doc_id,
        1,
        Some("low"),
        None,
        "stub",
        None,
        &dummy_embedding(0.11),
        0.1,
    )
    .unwrap();
    let hits = db
        .search_similar(&dummy_embedding(0.1), 5, &SearchFilters::default())
        .unwrap();
    assert_eq!(hits.len(), 2);
    let hits = db
        .search_similar(
            &dummy_embedding(0.1),
            5,
            &SearchFilters {
                min_quality: s(0.5),
                ..Default::default()
            },
        )
        .unwrap();
    assert_eq!(hits.len(), 1);
    assert_eq!(hits[0].heading.as_deref(), Some("high"));
    let hits = db
        .search_hybrid(
            "rich",
            &dummy_embedding(0.1),
            5,
            &SearchFilters {
                min_quality: s(0.5),
                ..Default::default()
            },
            FusionParams::default(),
        )
        .unwrap();
    assert!(hits.iter().all(|h| h.heading.as_deref() != Some("low")));
}

#[test]
fn test_rename_document_missing_source_errors() {
    let db = db_with_384();
    let err = db
        .rename_document("nope.md", "else.md")
        .expect_err("must error");
    assert!(err.to_string().contains("no document"));
}

#[test]
fn test_rename_document_preserves_chunks() {
    let db = db_with_384();
    let doc_id = db
        .upsert_document(
            "old/path.md",
            Some("T"),
            None,
            None,
            None,
            &[],
            None,
            "hash_same",
        )
        .unwrap();
    db.insert_chunk(
        doc_id,
        0,
        Some("H"),
        None,
        "content",
        None,
        &dummy_embedding(0.1),
        1.0,
    )
    .unwrap();
    assert_eq!(db.chunk_count().unwrap(), 1);
    db.rename_document("old/path.md", "new/path.md").unwrap();
    assert_eq!(db.chunk_count().unwrap(), 1);
    assert_eq!(
        db.get_document_hash("new/path.md").unwrap().as_deref(),
        Some("hash_same")
    );
    assert!(db.get_document_hash("old/path.md").unwrap().is_none());
    let map = db.all_path_hashes().unwrap();
    assert_eq!(map.get("new/path.md"), Some(&"hash_same".to_string()));
    assert!(!map.contains_key("old/path.md"));
}

#[test]
fn test_chunks_for_path_returns_chunks_in_order() {
    let db = db_with_384();
    let doc_id = db
        .upsert_document(
            "deep-dive/mcp/overview.md",
            Some("MCP Overview"),
            Some("mcp"),
            Some("deep-dive"),
            Some("1"),
            &[],
            Some("2026-04-16"),
            "h1",
        )
        .unwrap();
    db.insert_chunk(
        doc_id,
        0,
        Some("Intro"),
        None,
        "hello",
        None,
        &dummy_embedding(0.1),
        1.0,
    )
    .unwrap();
    db.insert_chunk(
        doc_id,
        1,
        Some("Body"),
        None,
        "world",
        None,
        &dummy_embedding(0.2),
        1.0,
    )
    .unwrap();

    let out = db.chunks_for_path("deep-dive/mcp/overview.md").unwrap();
    assert_eq!(out.len(), 2);
    assert_eq!(out[0].2.heading.as_deref(), Some("Intro"));
    assert_eq!(out[1].2.heading.as_deref(), Some("Body"));
    assert_eq!(out[0].1.len(), 384, "embedding dim must match");
    assert!((out[0].1[0] - 0.1).abs() < 1e-5);
    assert!((out[1].1[0] - 0.2).abs() < 1e-5);
    assert_eq!(val(out[0].2.score), 1.0);
    assert_eq!(out[0].2.path, "deep-dive/mcp/overview.md");
}

#[test]
fn test_chunks_for_path_missing_returns_empty() {
    let db = db_with_384();
    let out = db.chunks_for_path("does/not/exist.md").unwrap();
    assert!(out.is_empty());
}

#[test]
fn test_fetch_embeddings_by_chunk_ids_returns_hashmap() {
    let db = db_with_384();
    let doc1 = db
        .upsert_document("a.md", None, None, None, None, &[], None, "h_a")
        .unwrap();
    let c1 = db
        .insert_chunk(
            doc1,
            0,
            Some("h1"),
            None,
            "alpha",
            None,
            &dummy_embedding(0.1),
            1.0,
        )
        .unwrap();
    let c2 = db
        .insert_chunk(
            doc1,
            1,
            Some("h2"),
            None,
            "beta",
            None,
            &dummy_embedding(0.2),
            1.0,
        )
        .unwrap();
    let doc2 = db
        .upsert_document("b.md", None, None, None, None, &[], None, "h_b")
        .unwrap();
    let c3 = db
        .insert_chunk(
            doc2,
            0,
            Some("h3"),
            None,
            "gamma",
            None,
            &dummy_embedding(0.3),
            1.0,
        )
        .unwrap();

    let ids = vec![c1, c2, c3];
    let result = db.fetch_embeddings_by_chunk_ids(&ids).expect("fetch");
    assert_eq!(result.len(), 3);
    assert!(result.contains_key(&c1));
    assert!(result.contains_key(&c2));
    assert!(result.contains_key(&c3));
    for emb in result.values() {
        assert_eq!(emb.len(), 384);
    }
    assert!((result[&c1][0] - 0.1).abs() < 1e-5);
    assert!((result[&c2][0] - 0.2).abs() < 1e-5);
    assert!((result[&c3][0] - 0.3).abs() < 1e-5);
}

#[test]
fn test_fetch_embeddings_by_chunk_ids_skips_missing() {
    let db = db_with_384();
    let doc1 = db
        .upsert_document("a.md", None, None, None, None, &[], None, "h_a")
        .unwrap();
    let c1 = db
        .insert_chunk(
            doc1,
            0,
            Some("h1"),
            None,
            "alpha",
            None,
            &dummy_embedding(0.1),
            1.0,
        )
        .unwrap();

    let ids = vec![c1, 9999, 10000];
    let result = db.fetch_embeddings_by_chunk_ids(&ids).expect("fetch");
    assert_eq!(result.len(), 1, "missing ids should be silently skipped");
    assert!(result.contains_key(&c1));
}

#[test]
fn test_fetch_embeddings_by_chunk_ids_empty_input() {
    let db = db_with_384();
    let result = db.fetch_embeddings_by_chunk_ids(&[]).expect("fetch");
    assert!(result.is_empty());
}

#[test]
fn test_fetch_embeddings_by_chunk_ids_batches_above_sqlite_limit() {
    let db = db_with_384();
    let doc_id = db
        .upsert_document(
            "/big.md",
            Some("big"),
            Some("topic"),
            None,
            None,
            &[],
            None,
            "h",
        )
        .expect("upsert");
    let n = 600;
    let mut ids = Vec::with_capacity(n);
    for i in 0..n {
        let cid = db
            .insert_chunk(
                doc_id,
                i as i32,
                Some("h"),
                None,
                "c",
                None,
                &dummy_embedding((i as f32) * 0.001),
                1.0,
            )
            .expect("insert");
        ids.push(cid);
    }
    let result = db.fetch_embeddings_by_chunk_ids(&ids).expect("fetch");
    assert_eq!(
        result.len(),
        n,
        "all {n} embeddings should be returned across batches"
    );
    for &id in &ids {
        assert!(
            result.contains_key(&id),
            "chunk_id {id} missing from batched fetch"
        );
    }
}

#[test]
fn test_fetch_embeddings_by_chunk_ids_boundary_table() {
    let efb = EMBEDDING_FETCH_BATCH;
    for &n in &[0_usize, efb - 1, efb, efb + 1, 3 * efb] {
        let db = db_with_384();
        let doc_id = db
            .upsert_document(
                "/big.md",
                Some("big"),
                Some("topic"),
                None,
                None,
                &[],
                None,
                "h",
            )
            .expect("upsert");
        let mut ids = Vec::with_capacity(n);
        for i in 0..n {
            let cid = db
                .insert_chunk(
                    doc_id,
                    i as i32,
                    Some("h"),
                    None,
                    "c",
                    None,
                    &dummy_embedding((i as f32) * 0.001),
                    1.0,
                )
                .expect("insert");
            ids.push(cid);
        }
        let result = db.fetch_embeddings_by_chunk_ids(&ids).expect("fetch");
        assert_eq!(result.len(), n, "round-trip count mismatch for n={n}");
        for &id in &ids {
            assert!(result.contains_key(&id), "chunk_id {id} missing for n={n}");
        }
    }
}

#[test]
fn test_verify_creates_vec_chunks_with_declared_dim() {
    let db = Index::open_in_memory().unwrap();
    db.verify_embedding_meta("bge-m3", 1024).unwrap();
    assert_eq!(db.current_vec_dim().unwrap(), Some(1024));
    let doc_id = db
        .upsert_document("x.md", Some("x"), None, None, None, &[], None, "h")
        .unwrap();
    let emb: Vec<f32> = vec![0.1; 1024];
    db.insert_chunk(doc_id, 0, None, None, "hi", None, &emb, 1.0)
        .unwrap();
    assert_eq!(db.chunk_count().unwrap(), 1);
}

#[test]
fn test_ensure_vec_chunks_rejects_mismatched_dim() {
    let db = Index::open_in_memory().unwrap();
    db.ensure_vec_chunks_table(384).unwrap();
    let err = db.ensure_vec_chunks_table(1024).expect_err("must reject");
    assert!(err.to_string().contains("float[384]"));
}

#[test]
fn test_upsert_document_purges_old_fts() {
    let db = db_with_384();
    let doc_id = db
        .upsert_document("a.md", Some("a"), None, None, None, &[], None, "h1")
        .unwrap();
    db.insert_chunk(
        doc_id,
        0,
        None,
        None,
        "old content",
        None,
        &dummy_embedding(0.1),
        1.0,
    )
    .unwrap();
    assert_eq!(fts_count(&db), 1);
    db.upsert_document("a.md", Some("a"), None, None, None, &[], None, "h2")
        .unwrap();
    assert_eq!(fts_count(&db), 0);
}

#[test]
fn test_insert_chunk_populates_fts() {
    let db = db_with_384();
    let doc_id = db
        .upsert_document("a.md", Some("a"), None, None, None, &[], None, "h")
        .unwrap();
    let chunk_id = db
        .insert_chunk(
            doc_id,
            0,
            Some("Intro"),
            None,
            "hello world",
            None,
            &dummy_embedding(0.1),
            1.0,
        )
        .unwrap();
    assert_eq!(fts_count(&db), 1);
    let fts_rowid: i64 = db
        .conn
        .query_row("SELECT rowid FROM fts_chunks", [], |r| r.get(0))
        .unwrap();
    assert_eq!(fts_rowid, chunk_id);
}

#[test]
fn test_search_hybrid_fts_exact_match_ranks_higher() {
    let db = db_with_384();
    let doc_id = db
        .upsert_document("doc.md", Some("doc"), None, None, None, &[], None, "h")
        .unwrap();
    let a_id = db
        .insert_chunk(
            doc_id,
            0,
            Some("Errors"),
            None,
            "E0382 is a move error",
            None,
            &dummy_embedding(0.5),
            1.0,
        )
        .unwrap();
    let b_id = db
        .insert_chunk(
            doc_id,
            1,
            Some("Other"),
            None,
            "unrelated content here",
            None,
            &dummy_embedding(0.5),
            1.0,
        )
        .unwrap();

    let hits = db
        .search_hybrid(
            "E0382",
            &dummy_embedding(0.5),
            5,
            &SearchFilters::default(),
            FusionParams::default(),
        )
        .unwrap();
    assert_eq!(hits.len(), 2);
    assert!(
        hits[0].content.contains("E0382"),
        "got: {:?}",
        hits[0].content
    );
    let _ = (a_id, b_id);
}

#[test]
fn test_search_hybrid_falls_back_when_fts_query_empty() {
    let db = db_with_384();
    let doc_id = db
        .upsert_document("a.md", Some("a"), None, None, None, &[], None, "h")
        .unwrap();
    db.insert_chunk(
        doc_id,
        0,
        None,
        None,
        "content",
        None,
        &dummy_embedding(0.1),
        1.0,
    )
    .unwrap();
    let hits = db
        .search_hybrid(
            "ab",
            &dummy_embedding(0.1),
            5,
            &SearchFilters::default(),
            FusionParams::default(),
        )
        .unwrap();
    assert_eq!(hits.len(), 1);
    assert!(val(hits[0].score) > 0.0, "the RRF score is positive and finite");
}

#[test]
fn test_search_hybrid_candidates_returns_chunk_ids() {
    let db = db_with_384();
    let doc_id = db
        .upsert_document("a.md", Some("a"), None, None, None, &[], None, "h")
        .unwrap();
    let c1 = db
        .insert_chunk(
            doc_id,
            0,
            None,
            None,
            "E0382 moved value",
            None,
            &dummy_embedding(0.1),
            1.0,
        )
        .unwrap();
    let c2 = db
        .insert_chunk(
            doc_id,
            1,
            None,
            None,
            "unrelated note",
            None,
            &dummy_embedding(0.9),
            1.0,
        )
        .unwrap();

    let hits = db
        .search_hybrid_candidates(
            "E0382",
            &dummy_embedding(0.1),
            5,
            &SearchFilters::default(),
            FusionParams::default(),
        )
        .unwrap();
    assert!(!hits.is_empty());
    let ids: Vec<i64> = hits.iter().map(|(id, _)| *id).collect();
    assert!(ids.contains(&c1) || ids.contains(&c2));
}

#[test]
fn test_search_hybrid_candidates_unbounded_returns_full_pool() {
    let db = db_with_384();

    let mut chunk_ids: Vec<i64> = Vec::new();
    for i in 0..5 {
        let path = format!("doc_{i}.md");
        let doc_id = db
            .upsert_document(
                &path,
                Some("d"),
                None,
                None,
                None,
                &[],
                None,
                &format!("h_{i}"),
            )
            .unwrap();
        let c_a = db
            .insert_chunk(
                doc_id,
                0,
                None,
                None,
                &format!("alpha keyword text doc {i}"),
                None,
                &dummy_embedding(0.1 + (i as f32) * 0.01),
                1.0,
            )
            .unwrap();
        chunk_ids.push(c_a);
        if i >= 2 {
            let c_b = db
                .insert_chunk(
                    doc_id,
                    1,
                    None,
                    None,
                    &format!("secondary chunk content {i}"),
                    None,
                    &dummy_embedding(0.5 + (i as f32) * 0.01),
                    1.0,
                )
                .unwrap();
            chunk_ids.push(c_b);
        }
    }
    assert!(chunk_ids.len() >= 7, "fixture should have 7+ chunks");

    let query_emb = dummy_embedding(0.1);
    let query_text = "keyword";
    let filters = SearchFilters::default();

    let bounded = db
        .search_hybrid_candidates(query_text, &query_emb, 2, &filters, FusionParams::default())
        .unwrap();
    let unbounded = db
        .search_hybrid_candidates_unbounded(
            query_text,
            &query_emb,
            50,
            &filters,
            FusionParams::default(),
        )
        .unwrap();

    assert!(
        bounded.len() <= 2,
        "bounded must respect limit=2 (got {})",
        bounded.len()
    );
    assert!(
        unbounded.len() >= bounded.len(),
        "unbounded should return >= bounded: bounded={} unbounded={}",
        bounded.len(),
        unbounded.len()
    );
    assert!(
        unbounded.len() > bounded.len(),
        "unbounded should strictly exceed bounded with this fixture: \
         bounded={} unbounded={}",
        bounded.len(),
        unbounded.len()
    );
}

#[test]
fn test_search_hybrid_overfetches_when_filter_is_selective() {
    let db = db_with_384();
    for i in 0..20 {
        let path = format!("noise/doc_{i}.md");
        let cat = if i == 0 { "target" } else { "noise" };
        let doc_id = db
            .upsert_document(&path, Some("x"), None, Some(cat), None, &[], None, "h")
            .unwrap();
        db.insert_chunk(
            doc_id,
            0,
            None,
            None,
            "content",
            None,
            &dummy_embedding(0.5),
            1.0,
        )
        .unwrap();
    }

    let hits = db
        .search_hybrid(
            "noexistent_query",
            &dummy_embedding(0.5),
            5,
            &SearchFilters {
                category: Some("target"),
                ..Default::default()
            },
            FusionParams::default(),
        )
        .unwrap();
    assert_eq!(hits.len(), 1, "the one hit of the target category is not lost");
}

#[test]
fn test_fts_bm25_heading_weighted_higher() {
    let db = db_with_384();
    let doc_id = db
        .upsert_document("a.md", Some("a"), None, None, None, &[], None, "h")
        .unwrap();
    let a_id = db
        .insert_chunk(
            doc_id,
            0,
            Some("Introduction"),
            None,
            "This paragraph contains the kibarashi_unique_keyword only in content text",
            None,
            &dummy_embedding(0.5),
            1.0,
        )
        .unwrap();
    let b_id = db
        .insert_chunk(
            doc_id,
            1,
            Some("About kibarashi_unique_keyword"),
            None,
            "short body here.",
            None,
            &dummy_embedding(0.5),
            1.0,
        )
        .unwrap();
    let hits = db
        .search_fts_candidates(
            "kibarashi_unique_keyword",
            10,
            &SearchFilters::default(),
            FusionParams::default(),
        )
        .unwrap();
    assert_eq!(hits.len(), 2);
    let (top_id, _) = hits[0];
    assert_eq!(
        top_id, b_id,
        "heading hit (B) should rank higher than content-only hit (A). ids={a_id},{b_id}"
    );
}

#[test]
fn test_search_hybrid_japanese_trigram() {
    let db = db_with_384();
    let doc_id = db
        .upsert_document("ja.md", Some("ja"), None, None, None, &[], None, "h")
        .unwrap();
    db.insert_chunk(
        doc_id,
        0,
        Some("見出し"),
        None,
        "E0382 は value moved エラーです",
        None,
        &dummy_embedding(0.7),
        1.0,
    )
    .unwrap();
    db.insert_chunk(
        doc_id,
        1,
        None,
        None,
        "unrelated",
        None,
        &dummy_embedding(0.9),
        1.0,
    )
    .unwrap();
    let hits = db
        .search_hybrid(
            "エラー",
            &dummy_embedding(0.7),
            5,
            &SearchFilters::default(),
            FusionParams::default(),
        )
        .unwrap();
    assert!(!hits.is_empty());
    assert!(
        hits.iter().any(|h| h.content.contains("エラー")),
        "Japanese trigram should hit"
    );
}

#[test]
fn test_fts_context_column_is_searchable_via_insert_chunk() {
    let db = db_with_384();
    let doc_id = db
        .upsert_document("n/a.md", Some("T"), None, None, None, &[], None, "h")
        .unwrap();
    let emb = dummy_embedding(0.1);
    db.insert_chunk(
        doc_id,
        0,
        Some("RRF"),
        Some(3),
        "本文テキスト",
        Some("設計ノート > パイプライン設計 > RRF"),
        &emb,
        1.0,
    )
    .unwrap();
    let hit: i64 = db
        .conn
        .query_row(
            "SELECT COUNT(*) FROM fts_chunks WHERE fts_chunks MATCH 'パイプライン設計'",
            [],
            |r| r.get(0),
        )
        .unwrap_or(0);
    assert!(hit >= 1, "context-only vocabulary must be FTS-searchable");
}

#[test]
fn test_verify_embedding_meta_fresh_db() {
    let db = Index::open_in_memory().unwrap();
    assert!(db.read_embedding_meta().unwrap().is_none());

    db.verify_embedding_meta("bge-small-en-v1.5", 384).unwrap();

    let meta = db.read_embedding_meta().unwrap();
    assert_eq!(meta, Some(("bge-small-en-v1.5".to_string(), 384)));
}

#[test]
fn test_verify_embedding_meta_migrates_preexisting_db() {
    let db = Index::open_in_memory().unwrap();
    db.ensure_vec_chunks_table(384).unwrap();
    let doc_id = db
        .upsert_document(
            "deep-dive/mcp/overview.md",
            Some("MCP Overview"),
            Some("mcp"),
            Some("deep-dive"),
            None,
            &[],
            Some("2026-04-16"),
            "h",
        )
        .unwrap();
    db.insert_chunk(
        doc_id,
        0,
        None,
        None,
        "hi",
        None,
        &dummy_embedding(0.1),
        1.0,
    )
    .unwrap();
    assert!(db.read_embedding_meta().unwrap().is_none());

    db.verify_embedding_meta("bge-small-en-v1.5", 384).unwrap();

    assert_eq!(
        db.read_embedding_meta().unwrap(),
        Some(("bge-small-en-v1.5".to_string(), 384))
    );
}

#[test]
fn test_verify_embedding_meta_idempotent_on_match() {
    let db = Index::open_in_memory().unwrap();
    db.verify_embedding_meta("bge-small-en-v1.5", 384).unwrap();
    db.verify_embedding_meta("bge-small-en-v1.5", 384).unwrap();
}

#[test]
fn test_verify_embedding_meta_detects_mismatch() {
    let db = Index::open_in_memory().unwrap();
    db.verify_embedding_meta("bge-small-en-v1.5", 384).unwrap();

    let err = db
        .verify_embedding_meta("bge-m3", 1024)
        .expect_err("mismatch must be rejected");
    let msg = err.to_string();
    assert!(msg.contains("bge-small-en-v1.5"), "msg: {msg}");
    assert!(msg.contains("bge-m3"), "msg: {msg}");
    assert!(msg.contains("--force"), "msg: {msg}");
}

#[test]
fn test_read_embedding_meta_returns_none_when_half_written() {
    let db = Index::open_in_memory().unwrap();
    db.conn
        .execute(
            "INSERT INTO index_meta (key, value) VALUES ('embedding_model', 'x')",
            [],
        )
        .unwrap();
    assert!(db.read_embedding_meta().unwrap().is_none());
}

#[test]
fn test_context_mode_round_trip() {
    let db = Index::open_in_memory().unwrap();
    assert!(db.read_context_mode().unwrap().is_none());
    db.write_context_mode(ContextMode::Static).unwrap();
    assert_eq!(db.read_context_mode().unwrap(), Some(ContextMode::Static));
    db.write_context_mode(ContextMode::Off).unwrap();
    assert_eq!(db.read_context_mode().unwrap(), Some(ContextMode::Off));
}

#[test]
fn test_context_mode_malformed_is_none() {
    let db = Index::open_in_memory().unwrap();
    db.conn
        .execute(
            "INSERT INTO index_meta (key, value) VALUES ('context_mode', 'garbage')",
            [],
        )
        .unwrap();
    assert!(db.read_context_mode().unwrap().is_none());
}

#[test]
fn test_list_topics() {
    let db = Index::open_in_memory().unwrap();
    db.upsert_document(
        "deep-dive/mcp/overview.md",
        Some("MCP Overview"),
        Some("mcp"),
        Some("deep-dive"),
        Some("1"),
        &[],
        Some("2026-04-15"),
        "h1",
    )
    .unwrap();
    db.upsert_document(
        "deep-dive/mcp/features.md",
        Some("MCP Features"),
        Some("mcp"),
        Some("deep-dive"),
        Some("3"),
        &[],
        Some("2026-04-16"),
        "h2",
    )
    .unwrap();
    db.upsert_document(
        "ai-news/2026-04-16.md",
        Some("AI News Today"),
        None,
        Some("ai-news"),
        None,
        &[],
        Some("2026-04-16"),
        "h3",
    )
    .unwrap();

    let topics = db.list_topics().unwrap();

    assert_eq!(topics.len(), 2, "2 distinct (category,topic) groups");
    let ai = topics
        .iter()
        .find(|t| t.category.as_deref() == Some("ai-news"))
        .expect("should have ai-news group");
    assert_eq!(ai.file_count, 1);
    assert!(ai.titles.contains(&"AI News Today".to_string()));
    let mcp = topics
        .iter()
        .find(|t| t.topic.as_deref() == Some("mcp"))
        .expect("should have mcp group");
    assert_eq!(mcp.file_count, 2);
    assert!(mcp.titles.contains(&"MCP Overview".to_string()));
    assert!(mcp.titles.contains(&"MCP Features".to_string()));
}

#[test]
fn test_list_topics_title_with_double_pipe_is_not_split() {
    let db = Index::open_in_memory().unwrap();
    db.upsert_document(
        "deep-dive/x/a.md",
        Some("foo || bar"),
        Some("x"),
        Some("deep-dive"),
        None,
        &[],
        Some("2026-04-29"),
        "h1",
    )
    .unwrap();
    db.upsert_document(
        "deep-dive/x/b.md",
        Some("plain title"),
        Some("x"),
        Some("deep-dive"),
        None,
        &[],
        Some("2026-04-29"),
        "h2",
    )
    .unwrap();

    let topics = db.list_topics().unwrap();
    let group = topics
        .iter()
        .find(|t| t.topic.as_deref() == Some("x"))
        .expect("group exists");
    assert_eq!(group.file_count, 2);
    assert_eq!(
        group.titles.len(),
        2,
        "expected 2 titles, got {:?}",
        group.titles
    );
    assert!(
        group.titles.contains(&"foo || bar".to_string()),
        "title with || was fragmented: {:?}",
        group.titles
    );
    assert!(group.titles.contains(&"plain title".to_string()));
}

#[test]
fn test_search_result_includes_tags() {
    let db = db_with_384();
    let doc_id = db
        .upsert_document(
            "tagged.md",
            Some("Tagged"),
            None,
            None,
            None,
            &["rust".into(), "async".into()],
            None,
            "h1",
        )
        .unwrap();
    db.insert_chunk(
        doc_id,
        0,
        None,
        None,
        "body",
        None,
        &dummy_embedding(0.1),
        1.0,
    )
    .unwrap();

    let hits = db
        .search_similar(&dummy_embedding(0.1), 5, &SearchFilters::default())
        .unwrap();
    assert_eq!(hits.len(), 1);
    assert_eq!(hits[0].tags, vec!["rust".to_string(), "async".to_string()]);
}

#[test]
fn test_filter_path_globs_include_only() {
    let db = db_with_384();
    for (i, p) in ["docs/a.md", "docs/b.md", "notes/c.md"].iter().enumerate() {
        let id = db
            .upsert_document(p, Some("t"), None, None, None, &[], None, &format!("h{i}"))
            .unwrap();
        db.insert_chunk(
            id,
            0,
            None,
            None,
            "body",
            None,
            &dummy_embedding(0.1 + i as f32 * 0.01),
            1.0,
        )
        .unwrap();
    }

    let included = globset::GlobSetBuilder::new()
        .add(globset::Glob::new("docs/**").unwrap())
        .build()
        .unwrap();
    let cpg = CompiledPathGlobs {
        included: Some(included),
        excluded: None,
    };
    let filters = SearchFilters {
        path_globs: Some(&cpg),
        ..Default::default()
    };
    let hits = db
        .search_similar(&dummy_embedding(0.1), 10, &filters)
        .unwrap();
    let paths: Vec<&str> = hits.iter().map(|h| h.path.as_str()).collect();
    assert!(paths.iter().all(|p| p.starts_with("docs/")));
    assert_eq!(paths.len(), 2);
}

#[test]
fn test_filter_path_globs_with_exclude() {
    let db = db_with_384();
    for (i, p) in ["docs/a.md", "docs/draft/b.md", "docs/c.md"]
        .iter()
        .enumerate()
    {
        let id = db
            .upsert_document(p, Some("t"), None, None, None, &[], None, &format!("h{i}"))
            .unwrap();
        db.insert_chunk(
            id,
            0,
            None,
            None,
            "body",
            None,
            &dummy_embedding(0.1 + i as f32 * 0.01),
            1.0,
        )
        .unwrap();
    }

    let included = globset::GlobSetBuilder::new()
        .add(globset::Glob::new("docs/**").unwrap())
        .build()
        .unwrap();
    let excluded = globset::GlobSetBuilder::new()
        .add(globset::Glob::new("docs/draft/**").unwrap())
        .build()
        .unwrap();
    let cpg = CompiledPathGlobs {
        included: Some(included),
        excluded: Some(excluded),
    };
    let filters = SearchFilters {
        path_globs: Some(&cpg),
        ..Default::default()
    };
    let hits = db
        .search_similar(&dummy_embedding(0.1), 10, &filters)
        .unwrap();
    let paths: Vec<&str> = hits.iter().map(|h| h.path.as_str()).collect();
    assert!(!paths.iter().any(|p| p.starts_with("docs/draft/")));
    assert_eq!(paths.len(), 2);
}

#[test]
fn test_filter_tags_all_and_tags_any_combined() {
    let db = db_with_384();
    let cases: &[(&str, &[&str])] = &[
        ("doc_a.md", &["x", "b"]),
        ("doc_b.md", &["x", "z"]),
        ("doc_c.md", &["b", "c"]),
        ("doc_d.md", &["x", "c", "b"]),
    ];
    for (i, (p, tags)) in cases.iter().enumerate() {
        let tags_owned: Vec<String> = tags.iter().map(|s| s.to_string()).collect();
        let id = db
            .upsert_document(
                p,
                Some("t"),
                None,
                None,
                None,
                &tags_owned,
                None,
                &format!("h{i}"),
            )
            .unwrap();
        db.insert_chunk(
            id,
            0,
            None,
            None,
            "body",
            None,
            &dummy_embedding(0.1 + i as f32 * 0.01),
            1.0,
        )
        .unwrap();
    }
    let any_pool: Vec<String> = vec!["b".into(), "c".into()];
    let all_pool: Vec<String> = vec!["x".into()];
    let filters = SearchFilters {
        tags_any: &any_pool,
        tags_all: &all_pool,
        ..Default::default()
    };
    let hits = db
        .search_similar(&dummy_embedding(0.1), 10, &filters)
        .unwrap();
    let paths: Vec<&str> = hits.iter().map(|h| h.path.as_str()).collect();
    assert!(paths.contains(&"doc_a.md"));
    assert!(paths.contains(&"doc_d.md"));
    assert!(!paths.contains(&"doc_b.md"));
    assert!(!paths.contains(&"doc_c.md"));
}

#[test]
fn test_filter_date_range_strict_excludes_missing() {
    let db = db_with_384();
    let dates = &[
        ("a.md", Some("2026-01-15")),
        ("b.md", Some("2026-04-01")),
        ("c.md", Some("2025-12-31")),
        ("d.md", None),
    ];
    for (i, (p, d)) in dates.iter().enumerate() {
        let id = db
            .upsert_document(p, Some("t"), None, None, None, &[], *d, &format!("h{i}"))
            .unwrap();
        db.insert_chunk(
            id,
            0,
            None,
            None,
            "body",
            None,
            &dummy_embedding(0.1 + i as f32 * 0.01),
            1.0,
        )
        .unwrap();
    }
    let filters = SearchFilters {
        date_from: Some("2026-01-01"),
        date_to: Some("2026-12-31"),
        ..Default::default()
    };
    let hits = db
        .search_similar(&dummy_embedding(0.1), 10, &filters)
        .unwrap();
    let paths: Vec<&str> = hits.iter().map(|h| h.path.as_str()).collect();
    assert!(paths.contains(&"a.md"));
    assert!(paths.contains(&"b.md"));
    assert!(!paths.contains(&"c.md"));
    assert!(
        !paths.contains(&"d.md"),
        "missing date is excluded (strict)"
    );
}

#[test]
fn test_filter_has_any_triggers_overfetch_for_path_globs() {
    let db = db_with_384();
    for i in 0..20 {
        let (path, emb_seed) = if i == 0 {
            ("docs/keep.md".to_string(), 0.99_f32)
        } else {
            (format!("other/{i}.md"), 0.5_f32)
        };
        let id = db
            .upsert_document(
                &path,
                Some("t"),
                None,
                None,
                None,
                &[],
                None,
                &format!("h{i}"),
            )
            .unwrap();
        db.insert_chunk(
            id,
            0,
            None,
            None,
            "body",
            None,
            &dummy_embedding(emb_seed),
            1.0,
        )
        .unwrap();
    }
    let included = globset::GlobSetBuilder::new()
        .add(globset::Glob::new("docs/**").unwrap())
        .build()
        .unwrap();
    let cpg = CompiledPathGlobs {
        included: Some(included),
        excluded: None,
    };
    let filters = SearchFilters {
        path_globs: Some(&cpg),
        ..Default::default()
    };
    let hits = db
        .search_similar(&dummy_embedding(0.5), 5, &filters)
        .unwrap();
    assert_eq!(hits.len(), 1);
    assert_eq!(hits[0].path, "docs/keep.md");
}

#[test]
fn test_filter_path_globs_applies_to_fts_branch() {
    let db = db_with_384();
    for (i, p) in ["docs/a.md", "docs/b.md", "notes/c.md", "notes/d.md"]
        .iter()
        .enumerate()
    {
        let id = db
            .upsert_document(p, Some("t"), None, None, None, &[], None, &format!("h{i}"))
            .unwrap();
        db.insert_chunk(
            id,
            0,
            None,
            None,
            "kibarashi_unique_keyword body",
            None,
            &dummy_embedding(0.1 + i as f32 * 0.01),
            1.0,
        )
        .unwrap();
    }

    let included = globset::GlobSetBuilder::new()
        .add(globset::Glob::new("docs/**").unwrap())
        .build()
        .unwrap();
    let cpg = CompiledPathGlobs {
        included: Some(included),
        excluded: None,
    };
    let filters = SearchFilters {
        path_globs: Some(&cpg),
        ..Default::default()
    };
    let hits = db
        .search_hybrid(
            "kibarashi_unique_keyword",
            &dummy_embedding(0.1),
            10,
            &filters,
            FusionParams::default(),
        )
        .unwrap();
    let paths: Vec<&str> = hits.iter().map(|h| h.path.as_str()).collect();
    assert!(paths.iter().all(|p| p.starts_with("docs/")));
    assert_eq!(paths.len(), 2, "only docs/a.md and docs/b.md pass");
}

#[test]
fn test_filter_tags_applies_to_fts_branch() {
    let db = db_with_384();
    let cases: &[(&str, &[&str])] = &[
        ("doc_with_rust.md", &["rust"]),
        ("doc_with_other.md", &["python"]),
    ];
    for (i, (p, tags)) in cases.iter().enumerate() {
        let tags_owned: Vec<String> = tags.iter().map(|s| s.to_string()).collect();
        let id = db
            .upsert_document(
                p,
                Some("t"),
                None,
                None,
                None,
                &tags_owned,
                None,
                &format!("h{i}"),
            )
            .unwrap();
        db.insert_chunk(
            id,
            0,
            None,
            None,
            "kibarashi_unique_keyword body",
            None,
            &dummy_embedding(0.1 + i as f32 * 0.01),
            1.0,
        )
        .unwrap();
    }
    let any_pool: Vec<String> = vec!["rust".into()];
    let filters = SearchFilters {
        tags_any: &any_pool,
        ..Default::default()
    };
    let hits = db
        .search_hybrid(
            "kibarashi_unique_keyword",
            &dummy_embedding(0.1),
            10,
            &filters,
            FusionParams::default(),
        )
        .unwrap();
    let paths: Vec<&str> = hits.iter().map(|h| h.path.as_str()).collect();
    assert_eq!(paths, vec!["doc_with_rust.md"]);
}

#[test]
fn test_fts_bm25_weights_are_bound_and_effective() {
    let db = db_with_384();
    let doc_a = db
        .upsert_document("a.md", Some("A"), None, None, None, &[], None, "ha")
        .unwrap();
    db.insert_chunk(
        doc_a,
        0,
        Some("zebrafish"),
        None,
        "filler body text about nothing in particular",
        None,
        &dummy_embedding(0.2),
        1.0,
    )
    .unwrap();
    let doc_b = db
        .upsert_document("b.md", Some("B"), None, None, None, &[], None, "hb")
        .unwrap();
    db.insert_chunk(
        doc_b,
        0,
        Some("unrelated heading"),
        None,
        "zebrafish zebrafish zebrafish in the body",
        None,
        &dummy_embedding(0.8),
        1.0,
    )
    .unwrap();

    let heading_heavy = FusionParams {
        bm25_heading_weight: s(8.0),
        bm25_content_weight: s(0.5),
        ..FusionParams::default()
    };
    let content_heavy = FusionParams {
        bm25_heading_weight: s(0.5),
        bm25_content_weight: s(8.0),
        ..FusionParams::default()
    };

    let h = db
        .search_fts_candidates("zebrafish", 10, &SearchFilters::default(), heading_heavy)
        .unwrap();
    let c = db
        .search_fts_candidates("zebrafish", 10, &SearchFilters::default(), content_heavy)
        .unwrap();
    assert_eq!(h.len(), 2, "both docs must match the phrase");
    assert_eq!(c.len(), 2);
    assert_ne!(
        h[0].1.path, c[0].1.path,
        "heading-heavy and content-heavy weights must pick different top hits"
    );
}
