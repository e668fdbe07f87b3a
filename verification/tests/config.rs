//! The configuration: its defaults, what is refused, where it is found and what an
//! untrusted one may not decide.

use kb_mcp::config::{
    cache_dir_env_override, default_exclude_dirs, max_bm25_weight, max_rrf_k, BestPracticeConfig,
    Bm25Column, Config, ConfigError, ContextualConfig, EvalConfig, FusionConfig, HttpConfig,
    MmrConfig, ParentRetrieverConfig, ParsersConfig, SearchConfig, SearchOverrides,
    TransportConfig, TransportKind,
};
use kb_mcp::db::FusionParams;
use kb_mcp::float::{Float32, Float64};
use kb_mcp::path::{resolve_relative, PathName};
use kb_mcp::questions::{location_questions, trust_questions};
use kb_mcp::trust::{
    classify_trust, discover_located, expand_tilde, find_git_root, forbidden_kb_path, BindAddress,
    ConfigSource, ConfigTrust, FileFacts, ForbiddenKbPath, IpName, Located, TrustError,
    TrustRoots,
};

fn s(v: f32) -> Float32 {
    Float32::from_bits(v.to_bits())
}

fn val(v: Float32) -> f32 {
    f32::from_bits(v.to_bits())
}

fn path(text: &str) -> PathName {
    let (root, rest) = match text.strip_prefix('/') {
        Some(rest) => (Some("/".to_string()), rest),
        None => (None, text),
    };
    PathName {
        root,
        parts: rest
            .split('/')
            .filter(|p| !p.is_empty() && *p != ".")
            .map(|p| p.to_string())
            .collect(),
    }
}

fn shown(p: &PathName) -> String {
    format!("{}{}", p.root.as_deref().unwrap_or(""), p.parts.join("/"))
}

fn facts(existing: &[&str]) -> FileFacts {
    FileFacts {
        existing: existing.iter().map(|p| path(p)).collect(),
        canonical: vec![],
        symlinks: vec![],
    }
}

fn with_search(search: SearchConfig) -> Config {
    let mut cfg = Config::default();
    cfg.search = Some(search);
    cfg
}

fn message(cfg: &Config) -> String {
    let err = cfg.validate().unwrap_err();
    let got = match err.refused_number() {
        Some(n) => format!("{}", val(n)),
        None => String::new(),
    };
    err.message(&got)
}

#[test]
fn test_best_practice_default_is_empty() {
    let cfg = BestPracticeConfig::default();
    assert!(cfg.path_templates.is_empty());
}

#[test]
fn test_contextual_config_defaults_enabled_false() {
    let c = ContextualConfig::default();
    assert!(!c.enabled);
}

#[test]
fn test_mmr_config_defaults() {
    let cfg = MmrConfig::default();
    assert!(!cfg.enabled);
    assert!((val(cfg.lambda) - 0.7).abs() < 1e-6);
    assert_eq!(cfg.lambda, s(0.7));
    assert_eq!(val(cfg.same_doc_penalty), 0.0);
}

#[test]
fn test_mmr_lambda_out_of_range_rejected() {
    let mut search = SearchConfig::default();
    search.mmr.enabled = true;
    search.mmr.lambda = s(1.5);
    let cfg = with_search(search);
    let result = cfg.validate();
    assert!(result.is_err(), "lambda > 1.0 should fail validate");
    assert_eq!(
        message(&cfg),
        "[search.mmr].lambda must be in 0.0..=1.0, got 1.5"
    );
}

#[test]
fn test_mmr_same_doc_penalty_out_of_range_rejected() {
    let mut search = SearchConfig::default();
    search.mmr.enabled = true;
    search.mmr.same_doc_penalty = s(-0.1);
    let cfg = with_search(search);
    assert!(
        cfg.validate().is_err(),
        "negative same_doc_penalty should fail validate"
    );
    assert_eq!(
        message(&cfg),
        "[search.mmr].same_doc_penalty must be in 0.0..=1.0, got -0.1"
    );
}

#[test]
fn the_ends_of_a_range_are_inside_and_a_nan_is_not() {
    for (lambda, fine) in [
        (0.0, true),
        (-0.0, true),
        (1.0, true),
        (f32::NAN, false),
        (f32::INFINITY, false),
        (1.0000001, false),
    ] {
        let mut search = SearchConfig::default();
        search.mmr.lambda = s(lambda);
        assert_eq!(with_search(search).validate().is_ok(), fine, "{lambda}");
    }
}

#[test]
fn test_parent_retriever_config_defaults() {
    let cfg = ParentRetrieverConfig::default();
    assert!(!cfg.enabled);
    assert_eq!(cfg.whole_doc_threshold_tokens, 100);
    assert_eq!(cfg.max_expanded_tokens, 2000);
}

#[test]
fn test_parent_retriever_validates_max_expanded_gt_threshold() {
    let mut search = SearchConfig::default();
    search.parent_retriever = ParentRetrieverConfig {
        enabled: true,
        whole_doc_threshold_tokens: 500,
        max_expanded_tokens: 500,
    };
    let cfg = with_search(search);
    assert!(
        cfg.validate().is_err(),
        "max_expanded_tokens <= threshold should fail"
    );
    assert_eq!(
        message(&cfg),
        "[search.parent_retriever].max_expanded_tokens (500) must be > \
         whole_doc_threshold_tokens (500)"
    );
}

#[test]
fn test_parent_retriever_max_expanded_capped_at_8192() {
    let mut search = SearchConfig::default();
    search.parent_retriever.enabled = true;
    search.parent_retriever.max_expanded_tokens = 9000;
    let cfg = with_search(search);
    assert!(
        cfg.validate().is_err(),
        "max_expanded_tokens > 8192 (BGE-M3 ctx) should fail"
    );
    assert_eq!(
        message(&cfg),
        "[search.parent_retriever].max_expanded_tokens must be <= 8192 \
         (BGE-M3 context window), got 9000"
    );
    search.parent_retriever.max_expanded_tokens = 8192;
    assert!(with_search(search).validate().is_ok());
}

#[test]
fn test_search_overrides_resolve_parent_retriever_thresholds() {
    let mut search = SearchConfig::default();
    search.parent_retriever = ParentRetrieverConfig {
        enabled: true,
        whole_doc_threshold_tokens: 50,
        max_expanded_tokens: 1500,
    };
    let resolved = SearchOverrides::default().resolve(&search);
    assert!(resolved.parent_retriever_enabled);
    assert_eq!(resolved.parent_whole_doc_threshold_tokens, 50);
    assert_eq!(resolved.parent_max_expanded_tokens, 1500);
}

#[test]
fn test_search_overrides_resolve_per_call_beats_toml() {
    let mut search = SearchConfig::default();
    search.mmr.enabled = false;
    search.mmr.lambda = s(0.7);
    let overrides = SearchOverrides {
        mmr: Some(true),
        mmr_lambda: Some(s(0.3)),
        mmr_same_doc_penalty: None,
        parent_retriever: None,
    };
    let resolved = overrides.resolve(&search);
    assert!(resolved.mmr_enabled);
    assert!((val(resolved.mmr_lambda) - 0.3).abs() < 1e-6);
}

#[test]
fn test_search_overrides_resolve_toml_default_when_none() {
    let mut search = SearchConfig::default();
    search.mmr.enabled = true;
    search.mmr.lambda = s(0.5);
    let resolved = SearchOverrides::default().resolve(&search);
    assert!(resolved.mmr_enabled);
    assert!((val(resolved.mmr_lambda) - 0.5).abs() < 1e-6);
}

#[test]
fn test_search_overrides_resolve_uses_default_when_toml_missing() {
    let search_cfg = SearchConfig::default();
    let overrides = SearchOverrides::default();
    let resolved = overrides.resolve(&search_cfg);
    assert!(!resolved.mmr_enabled);
    assert!((val(resolved.mmr_lambda) - 0.7).abs() < 1e-6);
    assert_eq!(val(resolved.mmr_same_doc_penalty), 0.0);
}

#[test]
fn test_search_overrides_resolve_warn_emitted_when_mmr_off_with_lambda() {
    let search_cfg = SearchConfig::default();
    let overrides = SearchOverrides {
        mmr: None,
        mmr_lambda: Some(s(0.3)),
        mmr_same_doc_penalty: None,
        parent_retriever: None,
    };
    let resolved = overrides.resolve(&search_cfg);
    assert!(!resolved.mmr_enabled);
    assert!(overrides.ignores_mmr_values(&search_cfg));
    assert!(!SearchOverrides::default().ignores_mmr_values(&search_cfg));
}

#[test]
fn test_fusion_defaults_when_section_omitted() {
    let mut search = SearchConfig::default();
    search.min_confidence_ratio = Some(s(1.5));
    let cfg = with_search(search);
    let found = cfg.search.as_ref().unwrap();
    assert_eq!(found.fusion, FusionConfig::default());
    assert!(found.fusion.is_builtin_default());
    assert!(cfg.validate().is_ok());
}

#[test]
fn test_fusion_explicit_defaults_are_still_builtin_default() {
    let mut search = SearchConfig::default();
    search.fusion = FusionConfig {
        rrf_k: s(60.0),
        bm25_heading_weight: s(2.0),
        bm25_context_weight: s(1.0),
        bm25_content_weight: s(1.0),
    };
    let cfg = with_search(search);
    assert!(cfg.search.as_ref().unwrap().fusion.is_builtin_default());
    assert!(cfg.validate().is_ok());
}

#[test]
fn test_fusion_params_conversion_matches_db_default() {
    let p = FusionParams::from(&FusionConfig::default());
    assert_eq!(p, FusionParams::default());
}

#[test]
fn test_fusion_rejects_negative_weight() {
    let mut search = SearchConfig::default();
    search.fusion.bm25_heading_weight = s(-1.0);
    let cfg = with_search(search);
    let err = message(&cfg);
    assert!(
        err.contains("bm25_heading_weight"),
        "error must name the offending key: {err}"
    );
    assert_eq!(
        err,
        "[search.fusion].bm25_heading_weight must be a finite value in [0.0, 1e6] (a negative \
         weight puts a pole in the BM25 denominator and silently inverts the ranking; only the \
         ratio between the three weights affects ordering, so a huge one buys nothing), got -1"
    );
}

#[test]
fn test_fusion_rejects_non_finite() {
    let mut search = SearchConfig::default();
    search.fusion.bm25_content_weight = s(f32::NAN);
    assert!(
        with_search(search).validate().is_err(),
        "NaN weight must be rejected"
    );
    let mut search = SearchConfig::default();
    search.fusion.rrf_k = s(f32::INFINITY);
    assert!(
        with_search(search).validate().is_err(),
        "inf rrf_k must be rejected"
    );
}

#[test]
fn max_rrf_k_sits_below_the_f32_rank_collapse() {
    let score = |k: f32, rank: u32| 1.0f32 / (k + rank as f32 + 1.0);
    let bound = val(max_rrf_k());

    assert!(
        score(bound, 0) != score(bound, 1),
        "at the bound, adjacent ranks must still be distinguishable"
    );

    assert_eq!(
        score(1.6e7, 0),
        score(1.6e7, 1),
        "adjacent ranks tie by 1.6e7 — the measurement the bound is based on"
    );
    assert_eq!(
        score(1e9, 0),
        score(1e9, 9),
        "by 1e9 even ranks ten apart tie: total collapse"
    );
    assert_eq!(bound, 1e6);
}

#[test]
fn fusion_rejects_values_past_the_upper_bounds() {
    let mut search = SearchConfig::default();
    search.fusion.rrf_k = s(val(max_rrf_k()) * 10.0);
    assert!(
        with_search(search).validate().is_err(),
        "rrf_k past the bound must be rejected"
    );

    let mut search = SearchConfig::default();
    search.fusion.bm25_content_weight = s(val(max_bm25_weight()) * 10.0);
    assert!(
        with_search(search).validate().is_err(),
        "a bm25 weight past the bound must be rejected"
    );

    let mut search = SearchConfig::default();
    search.fusion.rrf_k = max_rrf_k();
    search.fusion.bm25_content_weight = max_bm25_weight();
    assert!(
        with_search(search).validate().is_ok(),
        "the bounds must be inclusive"
    );
}

#[test]
fn test_fusion_rejects_all_zero_weights() {
    let mut search = SearchConfig::default();
    search.fusion.bm25_heading_weight = s(0.0);
    search.fusion.bm25_context_weight = s(-0.0);
    search.fusion.bm25_content_weight = s(0.0);
    let err = message(&with_search(search));
    assert!(
        err.contains("all three bm25 weights"),
        "error must explain the all-zero collapse: {err}"
    );
}

#[test]
fn test_fusion_rejects_rrf_k_below_one() {
    let mut search = SearchConfig::default();
    search.fusion.rrf_k = s(0.5);
    let err = message(&with_search(search));
    assert!(err.contains("rrf_k"), "error must name rrf_k: {err}");
    assert_eq!(
        err,
        "[search.fusion].rrf_k must be a finite value in [1.0, 1e6] (Elasticsearch rank_constant \
         convention; the upper bound keeps ranks distinguishable in f32), got 0.5"
    );
}

#[test]
fn test_fusion_accepts_single_zero_weight() {
    let mut search = SearchConfig::default();
    search.fusion.bm25_context_weight = s(0.0);
    let cfg = with_search(search);
    assert!(cfg.validate().is_ok());
    assert!(!cfg.search.as_ref().unwrap().fusion.is_builtin_default());
}

#[test]
fn the_first_value_out_of_range_is_the_one_reported() {
    let mut search = SearchConfig::default();
    search.fusion.rrf_k = s(0.0);
    search.fusion.bm25_context_weight = s(-2.0);
    assert_eq!(
        with_search(search).validate(),
        Err(ConfigError::RrfK { got: s(0.0) })
    );
    search.fusion.rrf_k = s(1.0);
    search.fusion.bm25_content_weight = s(-3.0);
    assert_eq!(
        with_search(search).validate(),
        Err(ConfigError::Bm25Weight {
            column: Bm25Column::Context,
            got: s(-2.0)
        })
    );
    assert!(Config::default().validate().is_ok());
    assert!(with_search(SearchConfig::default()).validate().is_ok());
}

#[test]
fn an_empty_file_says_nothing() {
    assert!(Config::default().is_empty());
    let mut cfg = Config::default();
    cfg.rerank_by_default = Some(false);
    assert!(!cfg.is_empty());
}

#[test]
fn excluded_directories_are_replaced_as_a_whole() {
    let mut cfg = Config::default();
    assert_eq!(
        cfg.resolve_exclude_dirs(),
        vec![".obsidian", ".git", "node_modules", "target", ".vscode", ".idea"]
    );
    assert_eq!(cfg.resolve_exclude_dirs(), default_exclude_dirs());
    cfg.exclude_dirs = Some(vec![]);
    assert!(cfg.resolve_exclude_dirs().is_empty());
    cfg.exclude_dirs = Some(vec!["build".into()]);
    assert_eq!(cfg.resolve_exclude_dirs(), vec!["build"]);
}

#[test]
fn test_relative_paths_resolve_against_config_dir() {
    let mut cfg = Config::default();
    cfg.kb_path = Some(path("./knowledge-base"));
    cfg.fastembed_cache_dir = Some(path("cache/hf"));
    cfg.eval = Some(EvalConfig {
        golden: Some(path("golden.yml")),
        history_size: Some(3),
        k_values: None,
        regression_threshold: Some(Float64::from_bits(0.05f64.to_bits())),
    });
    let cfg = cfg.finish_loading(Some(&path("/etc/kb"))).unwrap();
    assert_eq!(shown(&cfg.kb_path.unwrap()), "/etc/kb/knowledge-base");
    assert_eq!(shown(&cfg.fastembed_cache_dir.unwrap()), "/etc/kb/cache/hf");
    let eval = cfg.eval.unwrap();
    assert_eq!(shown(&eval.golden.unwrap()), "/etc/kb/golden.yml");
    assert_eq!(eval.history_size, Some(3));
}

#[test]
fn test_absolute_paths_are_not_rebased() {
    let abs = path("/absolute/foo");
    let base = path("/some/base");
    let out = resolve_relative(&base, abs.clone());
    assert!(out.same(&abs));
    assert_eq!(shown(&out), "/absolute/foo");
}

#[test]
fn test_parsers_config_empty_array_is_rejected() {
    let mut cfg = Config::default();
    cfg.parsers = Some(ParsersConfig { enabled: vec![] });
    assert_eq!(
        cfg.finish_loading(None).unwrap_err(),
        ConfigError::NoParsers
    );
    let mut cfg = Config::default();
    cfg.parsers = Some(ParsersConfig {
        enabled: vec!["md".into()],
    });
    assert!(cfg.finish_loading(None).is_ok());
    let full = ConfigError::NoParsers.message("");
    assert!(
        full.contains("empty array") || full.contains("at least one id"),
        "error should mention empty config, got: {full}"
    );
}

#[test]
fn a_value_out_of_range_fails_the_loading() {
    let mut search = SearchConfig::default();
    search.mmr.lambda = s(2.0);
    assert_eq!(
        with_search(search).finish_loading(None).unwrap_err(),
        ConfigError::MmrLambda { got: s(2.0) }
    );
}

#[test]
fn test_apply_cache_dir_env_respects_existing_env() {
    let p = path("/from-config");
    assert!(cache_dir_env_override(true, Some(&p)).is_none());
}

#[test]
fn test_apply_cache_dir_env_uses_config_when_env_unset() {
    let p = path("/from-config");
    assert!(cache_dir_env_override(false, Some(&p)).unwrap().same(&p));
}

#[test]
fn test_apply_cache_dir_env_is_noop_when_neither_is_set() {
    assert!(cache_dir_env_override(false, None).is_none());
}

#[test]
fn test_config_source_variants_are_distinguishable() {
    let variants = [
        ConfigSource::Explicit,
        ConfigSource::Cwd,
        ConfigSource::GitRoot,
        ConfigSource::AlongsideBinary,
        ConfigSource::NotFound,
    ];
    let labels: Vec<String> = variants.iter().map(|v| format!("{v:?}")).collect();
    let unique: std::collections::HashSet<_> = labels.iter().collect();
    assert_eq!(
        unique.len(),
        variants.len(),
        "all variants must be distinct"
    );
}

#[test]
fn test_expand_tilde_with_home() {
    let home = dirs::home_dir().and_then(|h| h.to_str().map(str::to_string));
    let expanded = expand_tilde("~/.kb-mcp.toml", home.as_deref());
    assert_eq!(expanded, shellexpand::tilde("~/.kb-mcp.toml"));
    if let Some(home) = home {
        assert!(
            expanded.starts_with(&home) || expanded == "~/.kb-mcp.toml",
            "expanded={expanded:?}, home={home:?}"
        );
    }
}

#[test]
fn a_tilde_stands_for_the_home_directory_that_is_given() {
    let home = Some("/home/u");
    assert_eq!(expand_tilde("~/.kb-mcp.toml", home), "/home/u/.kb-mcp.toml");
    assert_eq!(expand_tilde("~", home), "/home/u");
    assert_eq!(expand_tilde("~/", Some("")), "/");
    assert_eq!(expand_tilde("~/.kb-mcp.toml", None), "~/.kb-mcp.toml");
    assert_eq!(expand_tilde("~", None), "~");
    for text in ["", "/etc/kb.toml", "a/~/b", "~other/b", "~~/b"] {
        assert_eq!(expand_tilde(text, home), text);
    }
}

#[test]
fn test_find_git_root_returns_dir_when_git_present() {
    let known = facts(&["/repo/.git"]);
    let found = find_git_root(&path("/repo/a/b/c"), &known).unwrap();
    assert_eq!(shown(&found), "/repo");
}

#[test]
fn test_find_git_root_handles_git_file_for_worktree() {
    let known = facts(&["/repo/.git"]);
    let found = find_git_root(&path("/repo"), &known).unwrap();
    assert_eq!(shown(&found), "/repo");
}

#[test]
fn test_find_git_root_returns_none_when_not_in_repo() {
    assert!(find_git_root(&path("/plain/dir"), &facts(&[])).is_none());
}

#[test]
fn test_find_git_root_caps_at_20_levels() {
    let mut deep = path("/repo");
    for i in 0..30 {
        deep = deep.below(&format!("d{i}"));
    }
    let known = facts(&["/repo/.git"]);
    assert!(find_git_root(&deep, &known).is_none());
    let mut reach = path("/repo");
    for i in 0..19 {
        reach = reach.below(&format!("d{i}"));
    }
    assert_eq!(shown(&find_git_root(&reach, &known).unwrap()), "/repo");
    assert!(find_git_root(&reach.below("one-more"), &known).is_none());
}

#[test]
fn the_nearest_repository_is_the_one_that_is_found() {
    let known = facts(&["/outer/.git", "/outer/inner/.git"]);
    assert_eq!(
        shown(&find_git_root(&path("/outer/inner/x"), &known).unwrap()),
        "/outer/inner"
    );
    assert_eq!(
        shown(&find_git_root(&path("/outer/other"), &known).unwrap()),
        "/outer"
    );
}

#[test]
fn test_discover_explicit_takes_priority_over_cwd() {
    let known = facts(&["/work/kb-mcp.toml", "/work/explicit.toml"]);
    let found =
        discover_located(Some(&path("/work/explicit.toml")), &path("/work"), None, &known).unwrap();
    assert_eq!(found.source, ConfigSource::Explicit);
    assert_eq!(shown(&found.path.unwrap()), "/work/explicit.toml");
    let relative =
        discover_located(Some(&path("explicit.toml")), &path("/work"), None, &known).unwrap();
    assert_eq!(shown(&relative.path.unwrap()), "/work/explicit.toml");
}

#[test]
fn test_discover_explicit_missing_fails_fast() {
    let known = facts(&["/work/kb-mcp.toml"]);
    let err = discover_located(
        Some(&path("/work/does-not-exist.toml")),
        &path("/work"),
        None,
        &known,
    )
    .expect_err("must error on missing explicit");
    let msg = err.message(&shown(&err.path));
    assert!(
        msg.contains("--config"),
        "error must mention --config: {msg}"
    );
    assert!(msg.contains("not found"), "error must say not found: {msg}");
    assert_eq!(msg, "--config path not found: /work/does-not-exist.toml");
}

#[test]
fn test_discover_cwd_when_no_explicit() {
    let found =
        discover_located(None, &path("/work"), None, &facts(&["/work/kb-mcp.toml"])).unwrap();
    assert_eq!(found.source, ConfigSource::Cwd);
    assert_eq!(shown(&found.path.unwrap()), "/work/kb-mcp.toml");
}

#[test]
fn test_discover_walks_to_git_root() {
    let known = facts(&["/repo/.git", "/repo/kb-mcp.toml"]);
    let found = discover_located(None, &path("/repo/a/b/c"), None, &known).unwrap();
    assert_eq!(found.source, ConfigSource::GitRoot);
    assert_eq!(shown(&found.path.unwrap()), "/repo/kb-mcp.toml");
}

#[test]
fn test_discover_cwd_wins_over_git_root() {
    let known = facts(&[
        "/repo/.git",
        "/repo/kb-mcp.toml",
        "/repo/project/sub/kb-mcp.toml",
    ]);
    let found = discover_located(None, &path("/repo/project/sub"), None, &known).unwrap();
    assert_eq!(found.source, ConfigSource::Cwd);
    assert_eq!(shown(&found.path.unwrap()), "/repo/project/sub/kb-mcp.toml");
}

#[test]
fn test_discover_returns_default_when_none() {
    let absent = path("/dir/there-is-no-toml-here.toml");
    let found = discover_located(None, &path("/dir"), Some(&absent), &facts(&[])).unwrap();
    assert_eq!(found.source, ConfigSource::NotFound);
    assert!(found.path.is_none());
    let d = Config::default()
        .discover_in(found, None, &TrustRoots::default(), &facts(&[]))
        .unwrap();
    assert_eq!(d.trust, ConfigTrust::Trusted);
    assert!(d.config.is_empty());
}

#[test]
fn test_discover_alongside_binary_when_no_higher_tier() {
    let side = path("/bin/kb-mcp.toml");
    let found =
        discover_located(None, &path("/work"), Some(&side), &facts(&["/bin/kb-mcp.toml"])).unwrap();
    assert_eq!(found.source, ConfigSource::AlongsideBinary);
    assert_eq!(shown(&found.path.unwrap()), "/bin/kb-mcp.toml");
}

fn planted(kb_path: &str) -> Config {
    let mut cfg = Config::default();
    cfg.kb_path = Some(path(kb_path));
    cfg.fastembed_cache_dir = Some(path("evil-cache"));
    cfg.transport = Some(TransportConfig {
        kind: Some(TransportKind::Http),
        http: Some(HttpConfig {
            bind: Some("0.0.0.0:3100".into()),
            allowed_hosts: Some(vec!["attacker.example".into()]),
            healthz_public: Some(false),
        }),
    });
    cfg
}

fn everywhere() -> Option<BindAddress> {
    Some(BindAddress {
        ip: IpName::V4 {
            a: 0,
            b: 0,
            c: 0,
            d: 0,
        },
        port: 3100,
    })
}

fn roots_for(config_home: Option<&str>, home: Option<&str>) -> TrustRoots {
    TrustRoots {
        roots: config_home.map(path).into_iter().collect(),
        home: home.map(path),
        cache_dir: Some(path("/tmp/kb-mcp-test-cache")),
        cache_env_set: false,
    }
}

fn found_at(source: ConfigSource, at: &str) -> Located {
    Located {
        source,
        path: Some(path(at)),
    }
}

fn bind_of(cfg: &Config) -> Option<String> {
    cfg.transport
        .as_ref()
        .and_then(|t| t.http.as_ref())
        .and_then(|h| h.bind.clone())
}

#[test]
fn trust_follows_the_location_and_never_the_contents() {
    let toml = path("/dir/kb-mcp.toml");
    let roots = roots_for(Some("/home/u/conf"), Some("/home/u"));
    let known = facts(&[]);

    for source in [
        ConfigSource::Explicit,
        ConfigSource::AlongsideBinary,
        ConfigSource::NotFound,
    ] {
        assert_eq!(
            classify_trust(source, Some(&toml), &roots, &known),
            ConfigTrust::Trusted,
            "{source:?} must be trusted"
        );
    }

    for source in [ConfigSource::Cwd, ConfigSource::GitRoot] {
        assert_eq!(
            classify_trust(source, Some(&toml), &roots, &known),
            ConfigTrust::Untrusted,
            "{source:?} outside a config home must be untrusted"
        );
        assert_eq!(
            classify_trust(source, None, &roots, &known),
            ConfigTrust::Untrusted
        );
    }

    let daemon_toml = path("/home/u/conf/svc/kb-mcp.toml");
    assert_eq!(
        classify_trust(ConfigSource::Cwd, Some(&daemon_toml), &roots, &known),
        ConfigTrust::Trusted,
        "a config under a trust root is the operator's, however it was found"
    );
}

#[test]
fn forbidden_kb_paths_are_the_ones_written_without_knowing_the_username() {
    let cfg_dir = path("/repo/project");
    let roots = roots_for(None, Some("/homes/u"));
    let known = facts(&[]);
    for (text, expected) in [
        ("/", "it is a filesystem root"),
        ("/homes/u", "it is the home directory"),
        ("/homes", "it is an ancestor of the home directory"),
        (
            "/repo",
            "it is an ancestor of the directory holding the config file",
        ),
    ] {
        assert_eq!(
            forbidden_kb_path(&path(text), Some(&cfg_dir), &roots, &known)
                .map(|reason| reason.as_str()),
            Some(expected),
            "{text} must be refused for exactly this reason"
        );
    }

    for (text, what) in [
        ("/repo/project", "the config's own directory"),
        ("/repo/project/docs", "a directory under the config"),
        ("/homes/u/Documents", "a specific directory in home"),
    ] {
        assert!(
            forbidden_kb_path(&path(text), Some(&cfg_dir), &roots, &known).is_none(),
            "{what} ({text}) must be allowed -- the rule bounds, it does not confine"
        );
    }
}

#[test]
fn a_symlink_kb_path_is_judged_by_its_target() {
    let cfg_dir = path("/repo/project");
    let roots = roots_for(None, Some("/homes/u"));
    let known = FileFacts {
        existing: vec![],
        canonical: vec![(path("/repo/project/kb"), path("/homes/u"))],
        symlinks: vec![path("/repo/project/kb"), path("/repo/project/dangling")],
    };
    assert_eq!(
        forbidden_kb_path(&path("/repo/project/kb"), Some(&cfg_dir), &roots, &known)
            .map(|reason| reason.as_str()),
        Some("it is the home directory"),
        "a symlink must be judged by what it points at, not by where it sits"
    );
    assert_eq!(
        forbidden_kb_path(
            &path("/repo/project/dangling"),
            Some(&cfg_dir),
            &roots,
            &known
        )
        .map(|reason| reason.as_str()),
        Some("it is a symlink that cannot be resolved"),
    );
}

#[test]
fn links_are_resolved_on_both_sides_of_a_trust_root() {
    let roots = roots_for(Some("/conf"), None);
    let known = FileFacts {
        existing: vec![],
        canonical: vec![
            (path("/conf"), path("/real/conf")),
            (path("/link"), path("/real/conf/svc")),
        ],
        symlinks: vec![],
    };
    assert!(roots.contains(&path("/link"), &known));
    assert!(!roots.contains(&path("/conf/svc"), &known));
    assert!(roots.contains(&path("/real/conf/svc/deep"), &known));
}

#[test]
fn an_untrusted_config_cannot_choose_which_model_file_is_loaded() {
    let d = planted("kb")
        .finish_loading(Some(&path("/dir")))
        .unwrap()
        .discover_in(
            found_at(ConfigSource::Cwd, "/dir/kb-mcp.toml"),
            everywhere(),
            &roots_for(None, None),
            &facts(&[]),
        )
        .expect("discover ok");
    assert_eq!(d.source, ConfigSource::Cwd);
    assert_eq!(d.trust, ConfigTrust::Untrusted);

    let used = d.config.fastembed_cache_dir.expect("a cache dir is always set");
    assert!(!used.starts_with(&path("/dir")));
    assert!(used.is_absolute());
    assert_eq!(shown(&used), "/tmp/kb-mcp-test-cache/fastembed");
}

#[test]
fn an_untrusted_config_gets_a_safe_cache_dir_even_when_it_names_none() {
    let mut cfg = Config::default();
    cfg.kb_path = Some(path("/dir/kb"));
    let d = cfg
        .discover_in(
            found_at(ConfigSource::Cwd, "/dir/kb-mcp.toml"),
            None,
            &roots_for(None, None),
            &facts(&[]),
        )
        .expect("discover ok");
    assert_eq!(d.trust, ConfigTrust::Untrusted);
    let used = d
        .config
        .fastembed_cache_dir
        .expect("an untrusted config always gets an explicit cache dir");
    assert!(used.is_absolute() && !used.starts_with(&path("/dir")));
}

#[test]
fn the_cache_rule_honours_an_existing_env_override_before_demanding_a_cache_dir() {
    let no_cache = TrustRoots::default();
    let err = planted("/dir/kb")
        .discover_in(
            found_at(ConfigSource::Cwd, "/dir/kb-mcp.toml"),
            everywhere(),
            &no_cache,
            &facts(&[]),
        )
        .expect_err("no safe cache directory can be named");
    assert_eq!(err, TrustError::NoCacheDir);
    let msg = err.message("/dir/kb-mcp.toml", "");
    assert!(
        msg.contains("FASTEMBED_CACHE_DIR"),
        "the error must name the remedy: {msg}"
    );
    assert!(msg.starts_with("cannot determine a cache directory for embedding models, so the \
                             model directory named by /dir/kb-mcp.toml cannot be safely replaced.\n"));

    let mut with_env = TrustRoots::default();
    with_env.cache_env_set = true;
    let d = planted("/dir/kb")
        .discover_in(
            found_at(ConfigSource::Cwd, "/dir/kb-mcp.toml"),
            everywhere(),
            &with_env,
            &facts(&[]),
        )
        .expect("setting FASTEMBED_CACHE_DIR must actually get past this");
    assert_eq!(d.trust, ConfigTrust::Untrusted);
    assert!(
        d.config.fastembed_cache_dir.is_none(),
        "the planted value is dropped; the environment already wins"
    );
}

#[test]
fn the_trust_root_is_the_kb_mcp_subdirectory_of_each_base() {
    let roots = TrustRoots::from_bases(Some(path("/base")), None, None, None, false);
    let known = facts(&[]);
    assert_eq!(
        classify_trust(
            ConfigSource::Cwd,
            Some(&path("/base/kb-mcp/svc/kb-mcp.toml")),
            &roots,
            &known
        ),
        ConfigTrust::Trusted,
        "where `service install` actually writes must stay trusted"
    );
    assert_eq!(
        classify_trust(
            ConfigSource::Cwd,
            Some(&path("/base/some-repo/kb-mcp.toml")),
            &roots,
            &known
        ),
        ConfigTrust::Untrusted,
        "a repository merely sharing the base directory is not the operator's config"
    );
    let both = TrustRoots::from_bases(
        Some(path("/a")),
        Some(path("/b")),
        Some(path("/h")),
        Some(path("/c")),
        true,
    );
    let listed: Vec<String> = both.roots.iter().map(shown).collect();
    assert_eq!(listed, vec!["/a/kb-mcp", "/b/kb-mcp"]);
    assert_eq!(shown(&both.home.unwrap()), "/h");
    assert_eq!(shown(&both.cache_dir.unwrap()), "/c");
    assert!(both.cache_env_set);
}

#[test]
fn an_untrusted_config_cannot_put_the_listener_on_the_network() {
    let d = planted("/dir/kb")
        .discover_in(
            found_at(ConfigSource::Cwd, "/dir/kb-mcp.toml"),
            everywhere(),
            &roots_for(None, None),
            &facts(&[]),
        )
        .expect("discover ok");
    assert_eq!(d.trust, ConfigTrust::Untrusted);
    let transport = d.config.transport.as_ref().unwrap();
    let http = transport
        .http
        .as_ref()
        .expect("[transport.http] survives; only its reach is cut");
    assert_eq!(
        http.bind.as_deref(),
        Some("127.0.0.1:3100"),
        "the port is kept, the interface is not"
    );
    assert!(
        http.allowed_hosts.is_none(),
        "dropping allowed_hosts restores the loopback-only Host check"
    );
    assert!(http.healthz_public.is_none());
    assert_eq!(transport.kind, Some(TransportKind::Http));
}

#[test]
fn a_loopback_or_unreadable_address_is_left_alone() {
    for (text, address) in [
        (
            "[::1]:9",
            Some(BindAddress {
                ip: IpName::V6 { value: 1 },
                port: 9,
            }),
        ),
        (
            "127.9.9.9:9",
            Some(BindAddress {
                ip: IpName::V4 {
                    a: 127,
                    b: 9,
                    c: 9,
                    d: 9,
                },
                port: 9,
            }),
        ),
        ("nonsense", None),
    ] {
        let mut cfg = planted("/dir/kb");
        cfg.transport.as_mut().unwrap().http.as_mut().unwrap().bind = Some(text.into());
        let once = cfg.clone();
        cfg.restrict_untrusted(None, address, &roots_for(None, None), &facts(&[]))
            .unwrap();
        assert_eq!(bind_of(&cfg).as_deref(), Some(text));
        assert!(once.transport.unwrap().http.unwrap().allowed_hosts.is_some());
    }
    assert!(BindAddress {
        ip: IpName::V6 { value: 0 },
        port: 1
    }
    .is_non_loopback());
}

#[test]
fn restricting_again_changes_nothing() {
    let roots = roots_for(None, None);
    let mut once = planted("/dir/kb");
    once.restrict_untrusted(None, everywhere(), &roots, &facts(&[]))
        .unwrap();
    let mut twice = once.clone();
    let now = BindAddress {
        ip: IpName::V4 {
            a: 127,
            b: 0,
            c: 0,
            d: 1,
        },
        port: 3100,
    };
    twice
        .restrict_untrusted(None, Some(now), &roots, &facts(&[]))
        .unwrap();
    assert_eq!(format!("{once:?}"), format!("{twice:?}"));
}

#[test]
fn an_untrusted_config_pointing_at_home_is_refused_outright() {
    let err = planted("/homes/u")
        .discover_in(
            found_at(ConfigSource::Cwd, "/dir/kb-mcp.toml"),
            everywhere(),
            &roots_for(None, Some("/homes/u")),
            &facts(&[]),
        )
        .expect_err("kb_path is the one fatal rule");
    assert_eq!(
        err,
        TrustError::KbPath {
            reason: ForbiddenKbPath::Home
        }
    );
    let msg = err.message("/dir/kb-mcp.toml", "/homes/u");
    assert!(msg.contains("refusing kb_path"), "{msg}");
    assert!(
        msg.contains("--config"),
        "the error must name the way to accept it: {msg}"
    );
    assert_eq!(
        msg,
        "refusing kb_path /homes/u from /dir/kb-mcp.toml: it is the home directory.\n\
         This config was found by kb-mcp itself (not named with --config), so its directory is \
         treated as untrusted. Pass --config /dir/kb-mcp.toml to accept it, or point kb_path at \
         a specific directory."
    );
}

#[test]
fn the_same_file_is_honoured_in_full_once_the_operator_names_it() {
    let d = planted("/homes/u")
        .finish_loading(Some(&path("/dir")))
        .unwrap()
        .discover_in(
            found_at(ConfigSource::Explicit, "/dir/kb-mcp.toml"),
            everywhere(),
            &roots_for(None, Some("/homes/u")),
            &facts(&[]),
        )
        .expect("--config is trusted, so nothing is refused");
    assert_eq!(d.source, ConfigSource::Explicit);
    assert_eq!(d.trust, ConfigTrust::Trusted);
    assert_eq!(
        shown(d.config.fastembed_cache_dir.as_ref().unwrap()),
        "/dir/evil-cache",
        "a named config keeps its cache dir"
    );
    assert_eq!(
        bind_of(&d.config).as_deref(),
        Some("0.0.0.0:3100"),
        "a named config keeps its bind -- that is the operator's decision"
    );
}

#[test]
fn a_config_in_the_daemons_config_home_keeps_all_of_its_privileges() {
    let d = planted("/homes/u")
        .discover_in(
            found_at(ConfigSource::Cwd, "/conf/kb-mcp/kb-mcp.toml"),
            everywhere(),
            &roots_for(Some("/conf"), Some("/homes/u")),
            &facts(&[]),
        )
        .expect("the daemon's own config must not be refused");
    assert_eq!(d.source, ConfigSource::Cwd);
    assert_eq!(d.trust, ConfigTrust::Trusted);
    assert_eq!(
        bind_of(&d.config).as_deref(),
        Some("0.0.0.0:3100"),
        "an operator-installed daemon keeps the bind it was configured with"
    );
}

#[test]
fn the_git_root_tier_is_restricted_too() {
    let known = facts(&["/root/.git", "/root/kb-mcp.toml"]);
    let located = discover_located(None, &path("/root/a/b/c"), None, &known).unwrap();
    let d = planted("/root/kb")
        .discover_in(located, everywhere(), &roots_for(None, None), &known)
        .expect("discover ok");
    assert_eq!(d.source, ConfigSource::GitRoot);
    assert_eq!(d.trust, ConfigTrust::Untrusted);
    assert_eq!(bind_of(&d.config).as_deref(), Some("127.0.0.1:3100"));
    assert_eq!(shown(&d.path.unwrap()), "/root/kb-mcp.toml");
}

#[test]
fn the_file_system_is_asked_about_every_path_that_matters() {
    let asked: Vec<String> = location_questions(
        Some(&path("given.toml")),
        &path("/repo/sub"),
        Some(&path("/bin/kb-mcp.toml")),
    )
    .iter()
    .map(shown)
    .collect();
    assert_eq!(
        asked,
        vec![
            "/repo/sub/given.toml",
            "/repo/sub/kb-mcp.toml",
            "/repo/sub/.git",
            "/repo/kb-mcp.toml",
            "/repo/.git",
            "/kb-mcp.toml",
            "/.git",
            "/bin/kb-mcp.toml",
        ]
    );
    let deep = path(&"/d".repeat(40));
    assert_eq!(location_questions(None, &deep, None).len(), 40);

    let mut cfg = Config::default();
    cfg.kb_path = Some(path("/dir/kb"));
    let roots = roots_for(Some("/home/u/conf"), Some("/home/u"));
    let located = found_at(ConfigSource::Cwd, "/dir/kb-mcp.toml");
    let asked: Vec<String> = trust_questions(&roots, &cfg, &located)
        .iter()
        .map(shown)
        .collect();
    assert!(asked.contains(&"/home/u".to_string()));
    assert!(asked.contains(&"/dir/kb".to_string()));
    assert!(asked.contains(&"/dir".to_string()));
    assert_eq!(asked.len(), roots.roots.len() + 3);
}
