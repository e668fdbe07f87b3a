//! Hybrid full-text and vector search over a Markdown knowledge base: the
//! rules that decide what is searched, what is returned and what is trusted.

pub mod config;
pub mod config_laws;
pub mod corpus;
pub mod db;
pub mod eval;
pub mod filter_laws;
pub mod fingerprint;
pub mod float;
pub mod fts_laws;
pub mod fts_query;
pub mod graph;
pub mod history;
pub mod metric_laws;
pub mod metrics;
pub mod path;
pub mod query_laws;
pub mod questions;
pub mod report;
pub mod report_laws;
pub mod run_laws;
pub mod search;
pub mod search_laws;
pub mod sort;
pub mod store;
pub mod store_laws;
pub mod tags;
pub mod text;
pub mod text_laws;
pub mod time;
pub mod trust;
pub mod trust_laws;
pub mod view_laws;
pub mod walk;
pub mod walk_laws;
