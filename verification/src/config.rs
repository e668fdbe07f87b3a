//! The configuration file: what it may say, what it defaults to, and which
//! values are refused.

use crate::db::FusionParams;
use crate::float::{Float32, Float64};
use crate::path;
use crate::path::{resolve_relative, PathName};
use crate::text;
use crate::text::{push_decimal, to_text};
use vstd::prelude::*;
use vstd::string::StringExecFns;

verus! {

/// Where templates of best-practice documents are looked for.
#[derive(Debug, Clone)]
pub struct BestPracticeConfig {
    pub path_templates: Vec<String>,
}

impl Default for BestPracticeConfig {
    /// No template: the tool is not configured.
    fn default() -> (r: Self)
        ensures
            r.path_templates@.len() == 0,
    {
        BestPracticeConfig { path_templates: Vec::new() }
    }
}

/// How hits are made to differ from each other.
#[derive(Debug, Clone, Copy, PartialEq, Eq, Structural)]
pub struct MmrConfig {
    pub enabled: bool,
    pub lambda: Float32,
    pub same_doc_penalty: Float32,
}

impl Default for MmrConfig {
    /// Off, with 0.7 and no penalty.
    fn default() -> (r: Self)
        ensures
            !r.enabled,
            r.lambda == Float32::seven_tenths(),
            r.same_doc_penalty == Float32::zero(),
    {
        MmrConfig {
            enabled: false,
            lambda: Float32::from_bits(0x3f33_3333),
            same_doc_penalty: Float32::from_bits(0),
        }
    }
}

pub fn default_whole_doc_threshold() -> (r: u32)
    ensures
        r == 100,
{
    100
}

pub fn default_max_expanded() -> (r: u32)
    ensures
        r == 2000,
{
    2000
}

/// How the content of a hit is widened.
#[derive(Debug, Clone, Copy, PartialEq, Eq, Structural)]
pub struct ParentRetrieverConfig {
    pub enabled: bool,
    pub whole_doc_threshold_tokens: u32,
    pub max_expanded_tokens: u32,
}

impl Default for ParentRetrieverConfig {
    fn default() -> (r: Self)
        ensures
            r == (ParentRetrieverConfig {
                enabled: false,
                whole_doc_threshold_tokens: 100,
                max_expanded_tokens: 2000,
            }),
    {
        ParentRetrieverConfig {
            enabled: false,
            whole_doc_threshold_tokens: default_whole_doc_threshold(),
            max_expanded_tokens: default_max_expanded(),
        }
    }
}

/// How the two rankings are fused.
#[derive(Debug, Clone, Copy, PartialEq, Eq, Structural)]
pub struct FusionConfig {
    pub rrf_k: Float32,
    pub bm25_heading_weight: Float32,
    pub bm25_context_weight: Float32,
    pub bm25_content_weight: Float32,
}

/// The largest constant of the reciprocal ranks: a million. Well above it,
/// neighbouring ranks would share a score.
pub fn max_rrf_k() -> (r: Float32)
    ensures
        r == Float32::million(),
{
    Float32::from_bits(0x4974_2400)
}

/// The largest weight of a full-text column: a million.
pub fn max_bm25_weight() -> (r: Float32)
    ensures
        r == Float32::million(),
{
    Float32::from_bits(0x4974_2400)
}

impl Default for FusionConfig {
    fn default() -> (r: Self)
        ensures
            r == FusionConfig::builtin(),
    {
        FusionConfig {
            rrf_k: Float32::from_bits(0x4270_0000),
            bm25_heading_weight: Float32::from_bits(0x4000_0000),
            bm25_context_weight: Float32::from_bits(0x3f80_0000),
            bm25_content_weight: Float32::from_bits(0x3f80_0000),
        }
    }
}

impl FusionConfig {
    /// 60, and the weights 2, 1 and 1.
    pub open spec fn builtin() -> FusionConfig {
        FusionConfig {
            rrf_k: Float32::sixty(),
            bm25_heading_weight: Float32::two(),
            bm25_context_weight: Float32::one(),
            bm25_content_weight: Float32::one(),
        }
    }

    /// The same numbers.
    pub open spec fn equals(self, other: FusionConfig) -> bool {
        &&& self.rrf_k.equals(other.rrf_k)
        &&& self.bm25_heading_weight.equals(other.bm25_heading_weight)
        &&& self.bm25_context_weight.equals(other.bm25_context_weight)
        &&& self.bm25_content_weight.equals(other.bm25_content_weight)
    }

    /// Whether nothing was changed.
    pub fn is_builtin_default(&self) -> (r: bool)
        ensures
            r == self.equals(FusionConfig::builtin()),
    {
        let d = FusionConfig::default();
        self.rrf_k.same(d.rrf_k) && self.bm25_heading_weight.same(d.bm25_heading_weight)
            && self.bm25_context_weight.same(d.bm25_context_weight)
            && self.bm25_content_weight.same(d.bm25_content_weight)
    }
}

impl From<&FusionConfig> for FusionParams {
    fn from(c: &FusionConfig) -> (r: Self) {
        FusionParams {
            rrf_k: c.rrf_k,
            bm25_heading_weight: c.bm25_heading_weight,
            bm25_context_weight: c.bm25_context_weight,
            bm25_content_weight: c.bm25_content_weight,
        }
    }
}

impl vstd::std_specs::convert::FromSpecImpl<&FusionConfig> for FusionParams {
    open spec fn obeys_from_spec() -> bool {
        true
    }

    open spec fn from_spec(c: &FusionConfig) -> FusionParams {
        FusionParams {
            rrf_k: c.rrf_k,
            bm25_heading_weight: c.bm25_heading_weight,
            bm25_context_weight: c.bm25_context_weight,
            bm25_content_weight: c.bm25_content_weight,
        }
    }
}

/// The defaults of the configuration are those of the search.
pub proof fn fusion_defaults_agree()
    ensures
        <FusionParams as vstd::std_specs::convert::FromSpec<&FusionConfig>>::from_spec(
            &FusionConfig::builtin(),
        ) == FusionParams::builtin(),
{
}

/// The section on searching.
#[derive(Debug, Clone, Copy, PartialEq, Eq, Structural)]
pub struct SearchConfig {
    pub min_confidence_ratio: Option<Float32>,
    pub mmr: MmrConfig,
    pub parent_retriever: ParentRetrieverConfig,
    pub fusion: FusionConfig,
}

impl Default for SearchConfig {
    fn default() -> (r: Self)
        ensures
            r == SearchConfig::builtin(),
    {
        SearchConfig {
            min_confidence_ratio: None,
            mmr: MmrConfig::default(),
            parent_retriever: ParentRetrieverConfig::default(),
            fusion: FusionConfig::default(),
        }
    }
}

/// What one call asks for in place of the configuration.
#[derive(Debug, Clone, Copy, PartialEq, Eq, Structural)]
pub struct SearchOverrides {
    pub mmr: Option<bool>,
    pub mmr_lambda: Option<Float32>,
    pub mmr_same_doc_penalty: Option<Float32>,
    pub parent_retriever: Option<bool>,
}

impl Default for SearchOverrides {
    /// Nothing is overridden.
    fn default() -> (r: Self)
        ensures
            r.mmr is None,
            r.mmr_lambda is None,
            r.mmr_same_doc_penalty is None,
            r.parent_retriever is None,
    {
        SearchOverrides {
            mmr: None,
            mmr_lambda: None,
            mmr_same_doc_penalty: None,
            parent_retriever: None,
        }
    }
}

/// What a search goes by.
#[derive(Debug, Clone, Copy, PartialEq, Eq, Structural)]
pub struct ResolvedSearchConfig {
    pub mmr_enabled: bool,
    pub mmr_lambda: Float32,
    pub mmr_same_doc_penalty: Float32,
    pub parent_retriever_enabled: bool,
    pub parent_whole_doc_threshold_tokens: u32,
    pub parent_max_expanded_tokens: u32,
}

/// The override where there is one, else the configured value.
pub open spec fn or_configured<A>(o: Option<A>, configured: A) -> A {
    match o {
        Some(a) => a,
        None => configured,
    }
}

impl SearchOverrides {
    /// What a search goes by: an override before the configuration.
    pub open spec fn resolved(self, toml: SearchConfig) -> ResolvedSearchConfig {
        ResolvedSearchConfig {
            mmr_enabled: or_configured(self.mmr, toml.mmr.enabled),
            mmr_lambda: or_configured(self.mmr_lambda, toml.mmr.lambda),
            mmr_same_doc_penalty: or_configured(
                self.mmr_same_doc_penalty,
                toml.mmr.same_doc_penalty,
            ),
            parent_retriever_enabled: or_configured(
                self.parent_retriever,
                toml.parent_retriever.enabled,
            ),
            parent_whole_doc_threshold_tokens: toml.parent_retriever.whole_doc_threshold_tokens,
            parent_max_expanded_tokens: toml.parent_retriever.max_expanded_tokens,
        }
    }

    pub fn resolve(&self, toml: &SearchConfig) -> (r: ResolvedSearchConfig)
        ensures
            r == self.resolved(*toml),
    {
        ResolvedSearchConfig {
            mmr_enabled: match self.mmr {
                Some(b) => b,
                None => toml.mmr.enabled,
            },
            mmr_lambda: match self.mmr_lambda {
                Some(x) => x,
                None => toml.mmr.lambda,
            },
            mmr_same_doc_penalty: match self.mmr_same_doc_penalty {
                Some(x) => x,
                None => toml.mmr.same_doc_penalty,
            },
            parent_retriever_enabled: match self.parent_retriever {
                Some(b) => b,
                None => toml.parent_retriever.enabled,
            },
            parent_whole_doc_threshold_tokens: toml.parent_retriever.whole_doc_threshold_tokens,
            parent_max_expanded_tokens: toml.parent_retriever.max_expanded_tokens,
        }
    }

    /// Whether a value for diversification was given to a search that does not
    /// diversify, so that it has no effect.
    pub fn ignores_mmr_values(&self, toml: &SearchConfig) -> (r: bool)
        ensures
            r == (!self.resolved(*toml).mmr_enabled && (self.mmr_lambda is Some
                || self.mmr_same_doc_penalty is Some)),
    {
        !self.resolve(toml).mmr_enabled && (self.mmr_lambda.is_some()
            || self.mmr_same_doc_penalty.is_some())
    }
}

/// The section on evaluation.
#[derive(Debug, Clone)]
pub struct EvalConfig {
    pub golden: Option<PathName>,
    pub history_size: Option<usize>,
    pub k_values: Option<Vec<usize>>,
    pub regression_threshold: Option<Float64>,
}

pub fn default_contextual_enabled() -> (r: bool)
    ensures
        !r,
{
    false
}

/// The section on context in front of chunks.
#[derive(Debug, Clone, Copy, PartialEq, Eq, Structural)]
pub struct ContextualConfig {
    pub enabled: bool,
}

impl Default for ContextualConfig {
    fn default() -> (r: Self)
        ensures
            !r.enabled,
    {
        ContextualConfig { enabled: default_contextual_enabled() }
    }
}

/// The section on the quality of chunks.
#[derive(Debug, Clone, Copy, PartialEq, Eq, Structural)]
pub struct QualityFilterConfig {
    pub enabled: bool,
    pub threshold: Float32,
}

/// The section on file formats.
#[derive(Debug, Clone)]
pub struct ParsersConfig {
    pub enabled: Vec<String>,
}

/// The section on watching files.
#[derive(Debug, Clone, Copy, PartialEq, Eq, Structural)]
pub struct WatchConfig {
    pub enabled: bool,
    pub debounce_ms: u64,
}

/// How clients connect.
#[derive(Debug, Clone, Copy, PartialEq, Eq, Structural)]
pub enum TransportKind {
    Stdio,
    Http,
}

/// The section on connections over HTTP.
#[derive(Debug, Clone)]
pub struct HttpConfig {
    pub bind: Option<String>,
    pub allowed_hosts: Option<Vec<String>>,
    pub healthz_public: Option<bool>,
}

/// The section on connections.
#[derive(Debug, Clone)]
pub struct TransportConfig {
    pub kind: Option<TransportKind>,
    pub http: Option<HttpConfig>,
}

/// A configuration file. Whatever it leaves out is `None`.
#[derive(Debug, Clone)]
pub struct Config {
    pub kb_path: Option<PathName>,
    pub model: Option<String>,
    pub reranker: Option<String>,
    pub rerank_by_default: Option<bool>,
    pub fastembed_cache_dir: Option<PathName>,
    pub exclude_headings: Option<Vec<String>>,
    pub exclude_dirs: Option<Vec<String>>,
    pub quality_filter: Option<QualityFilterConfig>,
    pub best_practice: Option<BestPracticeConfig>,
    pub parsers: Option<ParsersConfig>,
    pub watch: Option<WatchConfig>,
    pub transport: Option<TransportConfig>,
    pub eval: Option<EvalConfig>,
    pub search: Option<SearchConfig>,
    pub contextual: Option<ContextualConfig>,
}

/// Why a configuration is refused.
#[derive(Debug, Clone, Copy, PartialEq, Eq, Structural)]
pub enum ConfigError {
    /// The trade-off of diversification is not between 0 and 1.
    MmrLambda { got: Float32 },
    /// The penalty of diversification is not between 0 and 1.
    MmrSameDocPenalty { got: Float32 },
    /// The cap on widened contents is not above the threshold for whole
    /// documents.
    ParentOrder { max_expanded_tokens: u32, whole_doc_threshold_tokens: u32 },
    /// The cap on widened contents is larger than a model can read.
    ParentCap { max_expanded_tokens: u32 },
    /// The constant of the reciprocal ranks is not between 1 and a million.
    RrfK { got: Float32 },
    /// A column weight is not between 0 and a million.
    Bm25Weight { column: Bm25Column, got: Float32 },
    /// All column weights are 0.
    AllWeightsZero,
    /// The list of file formats is empty.
    NoParsers,
}

/// A full-text column.
#[derive(Debug, Clone, Copy, PartialEq, Eq, Structural)]
pub enum Bm25Column {
    Heading,
    Context,
    Content,
}

impl Bm25Column {
    pub open spec fn key(self) -> Seq<char> {
        match self {
            Bm25Column::Heading => "bm25_heading_weight"@,
            Bm25Column::Context => "bm25_context_weight"@,
            Bm25Column::Content => "bm25_content_weight"@,
        }
    }

    /// The key of the column's weight.
    pub fn as_str(self) -> (r: &'static str)
        ensures
            r@ == self.key(),
    {
        match self {
            Bm25Column::Heading => "bm25_heading_weight",
            Bm25Column::Context => "bm25_context_weight",
            Bm25Column::Content => "bm25_content_weight",
        }
    }
}

impl ConfigError {
    /// What is said of a refusal; `got` is the refused number as text.
    pub open spec fn text(self, got: Seq<char>) -> Seq<char> {
        match self {
            ConfigError::MmrLambda { got: _ } => "[search.mmr].lambda must be in 0.0..=1.0, got "@
                + got,
            ConfigError::MmrSameDocPenalty { got: _ } =>
                "[search.mmr].same_doc_penalty must be in 0.0..=1.0, got "@ + got,
            ConfigError::ParentOrder { max_expanded_tokens, whole_doc_threshold_tokens } =>
                "[search.parent_retriever].max_expanded_tokens ("@ + text::decimal(
                max_expanded_tokens as nat,
            ) + ") must be > whole_doc_threshold_tokens ("@ + text::decimal(
                whole_doc_threshold_tokens as nat,
            ) + ")"@,
            ConfigError::ParentCap { max_expanded_tokens } =>
                "[search.parent_retriever].max_expanded_tokens must be <= 8192 (BGE-M3 context window), got "@
                + text::decimal(max_expanded_tokens as nat),
            ConfigError::RrfK { got: _ } =>
                "[search.fusion].rrf_k must be a finite value in [1.0, 1e6] (Elasticsearch rank_constant convention; the upper bound keeps ranks distinguishable in f32), got "@
                + got,
            ConfigError::Bm25Weight { column, got: _ } => "[search.fusion]."@ + column.key()
                + " must be a finite value in [0.0, 1e6] (a negative weight puts a pole in the BM25 denominator and silently inverts the ranking; only the ratio between the three weights affects ordering, so a huge one buys nothing), got "@
                + got,
            ConfigError::AllWeightsZero =>
                "[search.fusion]: all three bm25 weights are 0.0; bm25() then returns -0.0 for every row and the FTS ranking collapses. Set at least one weight > 0.0."@,
            ConfigError::NoParsers =>
                "[parsers].enabled is an empty array; list at least one id, or leave the key out"@,
        }
    }

    /// The number that is refused, where it is a fraction.
    pub fn refused_number(&self) -> (r: Option<Float32>)
        ensures
            r == (match *self {
                ConfigError::MmrLambda { got } => Some(got),
                ConfigError::MmrSameDocPenalty { got } => Some(got),
                ConfigError::RrfK { got } => Some(got),
                ConfigError::Bm25Weight { column, got } => Some(got),
                _ => None,
            }),
    {
        match self {
            ConfigError::MmrLambda { got } => Some(*got),
            ConfigError::MmrSameDocPenalty { got } => Some(*got),
            ConfigError::RrfK { got } => Some(*got),
            ConfigError::Bm25Weight { column: _, got } => Some(*got),
            _ => None,
        }
    }

    /// What is said of a refusal; `got` is the refused number as text.
    pub fn message(&self, got: &str) -> (r: String)
        ensures
            r@ == self.text(got@),
    {
        match self {
            ConfigError::MmrLambda { got: _ } => {
                let mut out = to_text("[search.mmr].lambda must be in 0.0..=1.0, got ");
                out.append(got);
                out
            },
            ConfigError::MmrSameDocPenalty { got: _ } => {
                let mut out = to_text("[search.mmr].same_doc_penalty must be in 0.0..=1.0, got ");
                out.append(got);
                out
            },
            ConfigError::ParentOrder { max_expanded_tokens, whole_doc_threshold_tokens } => {
                let mut out = to_text("[search.parent_retriever].max_expanded_tokens (");
                push_decimal(&mut out, *max_expanded_tokens as u64);
                out.append(") must be > whole_doc_threshold_tokens (");
                push_decimal(&mut out, *whole_doc_threshold_tokens as u64);
                out.append(")");
                out
            },
            ConfigError::ParentCap { max_expanded_tokens } => {
                let mut out = to_text(
                    "[search.parent_retriever].max_expanded_tokens must be <= 8192 (BGE-M3 context window), got ",
                );
                push_decimal(&mut out, *max_expanded_tokens as u64);
                out
            },
            ConfigError::RrfK { got: _ } => {
                let mut out = to_text(
                    "[search.fusion].rrf_k must be a finite value in [1.0, 1e6] (Elasticsearch rank_constant convention; the upper bound keeps ranks distinguishable in f32), got ",
                );
                out.append(got);
                out
            },
            ConfigError::Bm25Weight { column, got: _ } => {
                let mut out = to_text("[search.fusion].");
                out.append(column.as_str());
                out.append(
                    " must be a finite value in [0.0, 1e6] (a negative weight puts a pole in the BM25 denominator and silently inverts the ranking; only the ratio between the three weights affects ordering, so a huge one buys nothing), got ",
                );
                out.append(got);
                out
            },
            ConfigError::AllWeightsZero => to_text(
                "[search.fusion]: all three bm25 weights are 0.0; bm25() then returns -0.0 for every row and the FTS ranking collapses. Set at least one weight > 0.0.",
            ),
            ConfigError::NoParsers => to_text(
                "[parsers].enabled is an empty array; list at least one id, or leave the key out",
            ),
        }
    }
}

/// The first thing wrong with a weight.
pub open spec fn weight_error(column: Bm25Column, w: Float32) -> Option<ConfigError> {
    if w.between(Float32::zero(), Float32::million()) {
        None
    } else {
        Some(ConfigError::Bm25Weight { column, got: w })
    }
}

/// The first thing wrong with the fusion.
pub open spec fn fusion_error(f: FusionConfig) -> Option<ConfigError> {
    if !f.rrf_k.between(Float32::one(), Float32::million()) {
        Some(ConfigError::RrfK { got: f.rrf_k })
    } else if weight_error(Bm25Column::Heading, f.bm25_heading_weight) is Some {
        weight_error(Bm25Column::Heading, f.bm25_heading_weight)
    } else if weight_error(Bm25Column::Context, f.bm25_context_weight) is Some {
        weight_error(Bm25Column::Context, f.bm25_context_weight)
    } else if weight_error(Bm25Column::Content, f.bm25_content_weight) is Some {
        weight_error(Bm25Column::Content, f.bm25_content_weight)
    } else if f.bm25_heading_weight.equals(Float32::zero()) && f.bm25_context_weight.equals(
        Float32::zero(),
    ) && f.bm25_content_weight.equals(Float32::zero()) {
        Some(ConfigError::AllWeightsZero)
    } else {
        None
    }
}

/// The first thing wrong with the section on searching.
pub open spec fn search_error(s: SearchConfig) -> Option<ConfigError> {
    if !s.mmr.lambda.between(Float32::zero(), Float32::one()) {
        Some(ConfigError::MmrLambda { got: s.mmr.lambda })
    } else if !s.mmr.same_doc_penalty.between(Float32::zero(), Float32::one()) {
        Some(ConfigError::MmrSameDocPenalty { got: s.mmr.same_doc_penalty })
    } else if s.parent_retriever.max_expanded_tokens
        <= s.parent_retriever.whole_doc_threshold_tokens {
        Some(
            ConfigError::ParentOrder {
                max_expanded_tokens: s.parent_retriever.max_expanded_tokens,
                whole_doc_threshold_tokens: s.parent_retriever.whole_doc_threshold_tokens,
            },
        )
    } else if s.parent_retriever.max_expanded_tokens > 8192 {
        Some(
            ConfigError::ParentCap { max_expanded_tokens: s.parent_retriever.max_expanded_tokens },
        )
    } else {
        fusion_error(s.fusion)
    }
}

fn check_weight(column: Bm25Column, w: Float32) -> (r: Option<ConfigError>)
    ensures
        r == weight_error(column, w),
{
    if w.in_range(Float32::from_bits(0), max_bm25_weight()) {
        None
    } else {
        Some(ConfigError::Bm25Weight { column, got: w })
    }
}

fn check_fusion(f: &FusionConfig) -> (r: Option<ConfigError>)
    ensures
        r == fusion_error(*f),
{
    if !f.rrf_k.in_range(Float32::from_bits(0x3f80_0000), max_rrf_k()) {
        return Some(ConfigError::RrfK { got: f.rrf_k });
    }
    let heading = check_weight(Bm25Column::Heading, f.bm25_heading_weight);
    if heading.is_some() {
        return heading;
    }
    let context = check_weight(Bm25Column::Context, f.bm25_context_weight);
    if context.is_some() {
        return context;
    }
    let content = check_weight(Bm25Column::Content, f.bm25_content_weight);
    if content.is_some() {
        return content;
    }
    let zero = Float32::from_bits(0);
    if f.bm25_heading_weight.same(zero) && f.bm25_context_weight.same(zero)
        && f.bm25_content_weight.same(zero) {
        return Some(ConfigError::AllWeightsZero);
    }
    None
}

fn check_search(s: &SearchConfig) -> (r: Option<ConfigError>)
    ensures
        r == search_error(*s),
{
    let zero = Float32::from_bits(0);
    let one = Float32::from_bits(0x3f80_0000);
    if !s.mmr.lambda.in_range(zero, one) {
        return Some(ConfigError::MmrLambda { got: s.mmr.lambda });
    }
    if !s.mmr.same_doc_penalty.in_range(zero, one) {
        return Some(ConfigError::MmrSameDocPenalty { got: s.mmr.same_doc_penalty });
    }
    if s.parent_retriever.max_expanded_tokens <= s.parent_retriever.whole_doc_threshold_tokens {
        return Some(
            ConfigError::ParentOrder {
                max_expanded_tokens: s.parent_retriever.max_expanded_tokens,
                whole_doc_threshold_tokens: s.parent_retriever.whole_doc_threshold_tokens,
            },
        );
    }
    if s.parent_retriever.max_expanded_tokens > 8192 {
        return Some(
            ConfigError::ParentCap { max_expanded_tokens: s.parent_retriever.max_expanded_tokens },
        );
    }
    check_fusion(&s.fusion)
}

impl SearchConfig {
    pub open spec fn builtin() -> SearchConfig {
        SearchConfig {
            min_confidence_ratio: None,
            mmr: MmrConfig {
                enabled: false,
                lambda: Float32::seven_tenths(),
                same_doc_penalty: Float32::zero(),
            },
            parent_retriever: ParentRetrieverConfig {
                enabled: false,
                whole_doc_threshold_tokens: 100,
                max_expanded_tokens: 2000,
            },
            fusion: FusionConfig::builtin(),
        }
    }
}

/// The defaults are accepted.
pub proof fn defaults_are_valid()
    ensures
        search_error(SearchConfig::builtin()) is None,
{
}

/// An accepted constant of the reciprocal ranks is a number from 1 to a million
/// and accepted weights are numbers from 0 to a million, not all of them 0: no
/// NaN and no infinity gets through.
pub proof fn accepted_fusion_is_finite(s: SearchConfig)
    requires
        search_error(s) is None,
    ensures
        s.fusion.rrf_k.is_finite(),
        s.fusion.bm25_heading_weight.is_finite(),
        s.fusion.bm25_context_weight.is_finite(),
        s.fusion.bm25_content_weight.is_finite(),
        !s.fusion.rrf_k.below(Float32::one()),
        !s.fusion.bm25_heading_weight.below(Float32::zero()),
        !s.fusion.bm25_context_weight.below(Float32::zero()),
        !s.fusion.bm25_content_weight.below(Float32::zero()),
        Float32::zero().below(s.fusion.bm25_heading_weight) || Float32::zero().below(
            s.fusion.bm25_context_weight,
        ) || Float32::zero().below(s.fusion.bm25_content_weight),
{
}

/// The names of directories that are not indexed unless the configuration says
/// otherwise.
pub open spec fn default_exclude_dir_texts() -> Seq<Seq<char>> {
    seq![".obsidian"@, ".git"@, "node_modules"@, "target"@, ".vscode"@, ".idea"@]
}

/// The names of directories that are not indexed unless the configuration says
/// otherwise.
pub fn default_exclude_dirs() -> (r: Vec<String>)
    ensures
        text::texts(r@) == default_exclude_dir_texts(),
{
    let mut out: Vec<String> = Vec::new();
    out.push(to_text(".obsidian"));
    out.push(to_text(".git"));
    out.push(to_text("node_modules"));
    out.push(to_text("target"));
    out.push(to_text(".vscode"));
    out.push(to_text(".idea"));
    assert(text::texts(out@) =~= default_exclude_dir_texts());
    out
}

impl Default for Config {
    /// An empty file.
    fn default() -> (r: Self)
        ensures
            r.says_nothing(),
    {
        Config {
            kb_path: None,
            model: None,
            reranker: None,
            rerank_by_default: None,
            fastembed_cache_dir: None,
            exclude_headings: None,
            exclude_dirs: None,
            quality_filter: None,
            best_practice: None,
            parsers: None,
            watch: None,
            transport: None,
            eval: None,
            search: None,
            contextual: None,
        }
    }
}

/// An optional path as seen from a directory.
pub open spec fn rebased(base: Option<path::PathText>, p: Option<path::PathText>) -> Option<
    path::PathText,
> {
    match (base, p) {
        (Some(b), Some(q)) => Some(b.joined(q)),
        _ => p,
    }
}

fn rebase_path(base: &PathName, p: Option<PathName>) -> (r: Option<PathName>)
    ensures
        path::option_path(r) == rebased(Some(base@), path::option_path(p)),
{
    match p {
        Some(q) => Some(resolve_relative(base, q)),
        None => None,
    }
}

impl Config {
    /// Nothing is set.
    pub open spec fn says_nothing(&self) -> bool {
        &&& self.kb_path is None
        &&& self.model is None
        &&& self.reranker is None
        &&& self.rerank_by_default is None
        &&& self.fastembed_cache_dir is None
        &&& self.exclude_headings is None
        &&& self.exclude_dirs is None
        &&& self.quality_filter is None
        &&& self.best_practice is None
        &&& self.parsers is None
        &&& self.watch is None
        &&& self.transport is None
        &&& self.eval is None
        &&& self.search is None
        &&& self.contextual is None
    }

    pub fn is_empty(&self) -> (r: bool)
        ensures
            r == self.says_nothing(),
    {
        self.kb_path.is_none() && self.model.is_none() && self.reranker.is_none()
            && self.rerank_by_default.is_none() && self.fastembed_cache_dir.is_none()
            && self.exclude_headings.is_none() && self.exclude_dirs.is_none()
            && self.quality_filter.is_none() && self.best_practice.is_none()
            && self.parsers.is_none() && self.watch.is_none() && self.transport.is_none()
            && self.eval.is_none() && self.search.is_none() && self.contextual.is_none()
    }

    /// The names of directories that are not indexed: those that are listed, or
    /// the default ones where there is no list. An empty list excludes none.
    pub fn resolve_exclude_dirs(&self) -> (r: Vec<String>)
        ensures
            text::texts(r@) == (match self.exclude_dirs {
                Some(list) => text::texts(list@),
                None => default_exclude_dir_texts(),
            }),
    {
        match &self.exclude_dirs {
            Some(list) => text::copy_texts(list),
            None => default_exclude_dirs(),
        }
    }

    /// Refuses values that are out of range, with the first one found.
    pub fn validate(&self) -> (r: Result<(), ConfigError>)
        ensures
            r == (match self.search {
                Some(s) => match search_error(s) {
                    Some(e) => Err(e),
                    None => Ok(()),
                },
                None => Ok::<(), ConfigError>(()),
            }),
    {
        match &self.search {
            Some(s) => match check_search(s) {
                Some(e) => Err(e),
                None => Ok(()),
            },
            None => Ok(()),
        }
    }

    /// Finishes reading a file: paths in it are meant from its directory, an
    /// empty list of file formats is refused, and so are values out of range.
    pub fn finish_loading(self, base: Option<&PathName>) -> (r: Result<Config, ConfigError>)
        ensures
            r is Err <==> (self.parsers matches Some(p) && p.enabled@.len() == 0) || (
            self.search matches Some(s) && search_error(s) is Some),
            r matches Err(e) ==> e == (if self.parsers matches Some(p) && p.enabled@.len() == 0 {
                ConfigError::NoParsers
            } else {
                search_error(self.search->0)->0
            }),
            r matches Ok(c) ==> {
                &&& path::option_path(c.kb_path) == rebased(
                    path::path_ref(base),
                    path::option_path(self.kb_path),
                )
                &&& path::option_path(c.fastembed_cache_dir) == rebased(
                    path::path_ref(base),
                    path::option_path(self.fastembed_cache_dir),
                )
                &&& match (c.eval, self.eval) {
                    (Some(x), Some(y)) => {
                        &&& path::option_path(x.golden) == rebased(
                            path::path_ref(base),
                            path::option_path(y.golden),
                        )
                        &&& x.history_size == y.history_size
                        &&& x.k_values == y.k_values
                        &&& x.regression_threshold == y.regression_threshold
                    },
                    (None, None) => true,
                    _ => false,
                }
                &&& c.same_but_paths(self)
            },
    {
        let parsers_missing = match &self.parsers {
            Some(p) => p.enabled.len() == 0,
            None => false,
        };
        let checked = self.validate();
        let mut c = self;
        if let Some(b) = base {
            c.kb_path = rebase_path(b, c.kb_path);
            c.fastembed_cache_dir = rebase_path(b, c.fastembed_cache_dir);
            c.eval = match c.eval {
                Some(e) => Some(
                    EvalConfig {
                        golden: rebase_path(b, e.golden),
                        history_size: e.history_size,
                        k_values: e.k_values,
                        regression_threshold: e.regression_threshold,
                    },
                ),
                None => None,
            };
        }
        if parsers_missing {
            return Err(ConfigError::NoParsers);
        }
        match checked {
            Ok(_) => Ok(c),
            Err(e) => Err(e),
        }
    }

    /// Nothing differs but the paths that are read relative to the file.
    pub open spec fn same_but_paths(self, other: Config) -> bool {
        &&& self.model == other.model
        &&& self.reranker == other.reranker
        &&& self.rerank_by_default == other.rerank_by_default
        &&& self.exclude_headings == other.exclude_headings
        &&& self.exclude_dirs == other.exclude_dirs
        &&& self.quality_filter == other.quality_filter
        &&& self.best_practice == other.best_practice
        &&& self.parsers == other.parsers
        &&& self.watch == other.watch
        &&& self.transport == other.transport
        &&& self.search == other.search
        &&& self.contextual == other.contextual
    }
}

/// The cache directory to set in the environment: none where the environment
/// has one already.
pub fn cache_dir_env_override(env_already_set: bool, configured: Option<&PathName>) -> (r: Option<
    &PathName,
>)
    ensures
        r == (if env_already_set {
            None
        } else {
            configured
        }),
{
    if env_already_set {
        None
    } else {
        configured
    }
}

} // verus!
