//! What decides whether two evaluation runs compare: everything that changes the
//! numbers without retrieval being better or worse.

use crate::config::{Config, FusionConfig, SearchConfig, SearchOverrides};
use crate::db::ContextMode;
use crate::float::Float32;
use crate::text;
use crate::text::{same_text, to_text};
use vstd::prelude::*;

verus! {

/// The version of the metrics. A change of a formula counts it up.
pub const METRIC_VERSION: u32 = 2;

/// The version of a run that does not say which it is.
pub fn legacy_metric_version() -> (r: u32)
    ensures
        r == 1,
{
    1
}

/// The diversification of a run that has one.
#[derive(Debug, Clone, Copy, PartialEq, Eq, Structural)]
pub struct MmrFingerprint {
    pub lambda: Float32,
    pub same_doc_penalty: Float32,
}

/// The widening of a run that has one.
#[derive(Debug, Clone, Copy, PartialEq, Eq, Structural)]
pub struct ParentRetrieverFingerprint {
    pub whole_doc_threshold_tokens: u32,
    pub max_expanded_tokens: u32,
}

/// The fusion of a run whose fusion is not the default one.
#[derive(Debug, Clone, Copy, PartialEq, Eq, Structural)]
pub struct FusionFingerprint {
    pub rrf_k: Float32,
    pub bm25_heading_weight: Float32,
    pub bm25_context_weight: Float32,
    pub bm25_content_weight: Float32,
}

/// The context of a run over an index that was built with one.
#[derive(Debug, Clone)]
pub struct ContextFingerprint {
    pub mode: String,
}

/// The conditions of a run. What is switched off leaves no trace.
#[derive(Debug, Clone)]
pub struct ConfigFingerprint {
    pub model: String,
    pub reranker: Option<String>,
    pub limit: u32,
    pub k_values: Vec<usize>,
    pub golden_hash: String,
    pub metric_version: u32,
    pub mmr: Option<MmrFingerprint>,
    pub parent_retriever: Option<ParentRetrieverFingerprint>,
    pub fusion: Option<FusionFingerprint>,
    pub context: Option<ContextFingerprint>,
}

/// The conditions of a run, with texts as characters.
pub struct FingerprintText {
    pub model: Seq<char>,
    pub reranker: Option<Seq<char>>,
    pub limit: u32,
    pub k_values: Seq<usize>,
    pub golden_hash: Seq<char>,
    pub metric_version: u32,
    pub mmr: Option<MmrFingerprint>,
    pub parent_retriever: Option<ParentRetrieverFingerprint>,
    pub fusion: Option<FusionFingerprint>,
    pub context: Option<Seq<char>>,
}

impl View for ConfigFingerprint {
    type V = FingerprintText;

    open spec fn view(&self) -> FingerprintText {
        FingerprintText {
            model: self.model@,
            reranker: text::option_text(self.reranker),
            limit: self.limit,
            k_values: self.k_values@,
            golden_hash: self.golden_hash@,
            metric_version: self.metric_version,
            mmr: self.mmr,
            parent_retriever: self.parent_retriever,
            fusion: self.fusion,
            context: match self.context {
                Some(c) => Some(c.mode@),
                None => None,
            },
        }
    }
}

/// The same numbers in the diversification, or none on either side.
pub open spec fn mmr_equal(a: Option<MmrFingerprint>, b: Option<MmrFingerprint>) -> bool {
    match (a, b) {
        (Some(x), Some(y)) => x.lambda.equals(y.lambda) && x.same_doc_penalty.equals(
            y.same_doc_penalty,
        ),
        (None, None) => true,
        _ => false,
    }
}

/// The same numbers in the fusion, or none on either side.
pub open spec fn fusion_equal(a: Option<FusionFingerprint>, b: Option<FusionFingerprint>) -> bool {
    match (a, b) {
        (Some(x), Some(y)) => {
            &&& x.rrf_k.equals(y.rrf_k)
            &&& x.bm25_heading_weight.equals(y.bm25_heading_weight)
            &&& x.bm25_context_weight.equals(y.bm25_context_weight)
            &&& x.bm25_content_weight.equals(y.bm25_content_weight)
        },
        (None, None) => true,
        _ => false,
    }
}

impl FingerprintText {
    /// Whether two runs compare: all conditions are the same. A NaN is the same as
    /// nothing, not even itself.
    pub open spec fn compatible(self, other: FingerprintText) -> bool {
        &&& self.model == other.model
        &&& self.reranker == other.reranker
        &&& self.limit == other.limit
        &&& self.k_values == other.k_values
        &&& self.golden_hash == other.golden_hash
        &&& self.metric_version == other.metric_version
        &&& mmr_equal(self.mmr, other.mmr)
        &&& self.parent_retriever == other.parent_retriever
        &&& fusion_equal(self.fusion, other.fusion)
        &&& self.context == other.context
    }

    /// No condition is a NaN.
    pub open spec fn comparable(self) -> bool {
        &&& self.mmr matches Some(m) ==> !m.lambda.is_nan() && !m.same_doc_penalty.is_nan()
        &&& self.fusion matches Some(f) ==> !f.rrf_k.is_nan() && !f.bm25_heading_weight.is_nan()
            && !f.bm25_context_weight.is_nan() && !f.bm25_content_weight.is_nan()
    }
}

/// Runs that compare fall into classes: a run compares with itself, unless one of
/// its conditions is a NaN; where one compares with another the other
/// compares with it; and what compares with the same run compares.
pub proof fn comparing_is_an_equivalence(a: FingerprintText, b: FingerprintText, c: FingerprintText)
    ensures
        a.comparable() <==> a.compatible(a),
        a.compatible(b) ==> b.compatible(a),
        a.compatible(b) && b.compatible(c) ==> a.compatible(c),
{
}

fn same_option(a: &Option<String>, b: &Option<String>) -> (r: bool)
    ensures
        r == (text::option_text(*a) == text::option_text(*b)),
{
    match (a, b) {
        (Some(x), Some(y)) => same_text(x.as_str(), y.as_str()),
        (None, None) => true,
        _ => false,
    }
}

fn same_depths(a: &Vec<usize>, b: &Vec<usize>) -> (r: bool)
    ensures
        r == (a@ == b@),
{
    if a.len() != b.len() {
        return false;
    }
    let mut i: usize = 0;
    while i < a.len()
        invariant
            i <= a@.len() == b@.len(),
            forall|k: int| 0 <= k < i ==> a@[k] == b@[k],
        decreases a@.len() - i,
    {
        if a[i] != b[i] {
            return false;
        }
        i += 1;
    }
    assert(a@ =~= b@);
    true
}

fn same_mmr(a: &Option<MmrFingerprint>, b: &Option<MmrFingerprint>) -> (r: bool)
    ensures
        r == mmr_equal(*a, *b),
{
    match (a, b) {
        (Some(x), Some(y)) => x.lambda.same(y.lambda) && x.same_doc_penalty.same(
            y.same_doc_penalty,
        ),
        (None, None) => true,
        _ => false,
    }
}

fn same_parent(
    a: &Option<ParentRetrieverFingerprint>,
    b: &Option<ParentRetrieverFingerprint>,
) -> (r: bool)
    ensures
        r == (*a == *b),
{
    match (a, b) {
        (Some(x), Some(y)) => x.whole_doc_threshold_tokens == y.whole_doc_threshold_tokens
            && x.max_expanded_tokens == y.max_expanded_tokens,
        (None, None) => true,
        _ => false,
    }
}

fn same_fusion(a: &Option<FusionFingerprint>, b: &Option<FusionFingerprint>) -> (r: bool)
    ensures
        r == fusion_equal(*a, *b),
{
    match (a, b) {
        (Some(x), Some(y)) => x.rrf_k.same(y.rrf_k) && x.bm25_heading_weight.same(
            y.bm25_heading_weight,
        ) && x.bm25_context_weight.same(y.bm25_context_weight) && x.bm25_content_weight.same(
            y.bm25_content_weight,
        ),
        (None, None) => true,
        _ => false,
    }
}

fn same_context(a: &Option<ContextFingerprint>, b: &Option<ContextFingerprint>) -> (r: bool)
    ensures
        r == (match (*a, *b) {
            (Some(x), Some(y)) => x.mode@ == y.mode@,
            (None, None) => true,
            _ => false,
        }),
{
    match (a, b) {
        (Some(x), Some(y)) => same_text(x.mode.as_str(), y.mode.as_str()),
        (None, None) => true,
        _ => false,
    }
}

/// What a configured section on searching leaves of its diversification.
pub open spec fn mmr_of(s: SearchConfig) -> Option<MmrFingerprint> {
    if s.mmr.enabled {
        Some(MmrFingerprint { lambda: s.mmr.lambda, same_doc_penalty: s.mmr.same_doc_penalty })
    } else {
        None
    }
}

/// What a configured section on searching leaves of its widening.
pub open spec fn parent_of(s: SearchConfig) -> Option<ParentRetrieverFingerprint> {
    if s.parent_retriever.enabled {
        Some(
            ParentRetrieverFingerprint {
                whole_doc_threshold_tokens: s.parent_retriever.whole_doc_threshold_tokens,
                max_expanded_tokens: s.parent_retriever.max_expanded_tokens,
            },
        )
    } else {
        None
    }
}

/// What a fusion leaves.
pub open spec fn fusion_of(f: FusionConfig) -> Option<FusionFingerprint> {
    if f.equals(FusionConfig::builtin()) {
        None
    } else {
        Some(
            FusionFingerprint {
                rrf_k: f.rrf_k,
                bm25_heading_weight: f.bm25_heading_weight,
                bm25_context_weight: f.bm25_context_weight,
                bm25_content_weight: f.bm25_content_weight,
            },
        )
    }
}

/// What the context of an index leaves.
pub open spec fn context_of(mode: Option<ContextMode>) -> Option<Seq<char>> {
    if mode == Some(ContextMode::Static) {
        Some("static"@)
    } else {
        None
    }
}

/// The context that a configuration asks for.
pub open spec fn intended_context(config: Config) -> Option<ContextMode> {
    match config.contextual {
        Some(c) => if c.enabled {
            Some(ContextMode::Static)
        } else {
            None
        },
        None => None,
    }
}

fn fusion_fingerprint(f: &FusionConfig) -> (r: Option<FusionFingerprint>)
    ensures
        r == fusion_of(*f),
{
    if f.is_builtin_default() {
        None
    } else {
        Some(
            FusionFingerprint {
                rrf_k: f.rrf_k,
                bm25_heading_weight: f.bm25_heading_weight,
                bm25_context_weight: f.bm25_context_weight,
                bm25_content_weight: f.bm25_content_weight,
            },
        )
    }
}

fn context_fingerprint(mode: Option<ContextMode>) -> (r: Option<ContextFingerprint>)
    ensures
        match r {
            Some(c) => Some(c.mode@),
            None => None,
        } == context_of(mode),
{
    match mode {
        Some(ContextMode::Static) => Some(
            ContextFingerprint { mode: to_text(ContextMode::Static.as_str()) },
        ),
        _ => None,
    }
}

impl ConfigFingerprint {
    /// Whether two runs compare.
    pub fn same(&self, other: &ConfigFingerprint) -> (r: bool)
        ensures
            r == self@.compatible(other@),
    {
        same_text(self.model.as_str(), other.model.as_str()) && same_option(
            &self.reranker,
            &other.reranker,
        ) && self.limit == other.limit && same_depths(&self.k_values, &other.k_values)
            && same_text(self.golden_hash.as_str(), other.golden_hash.as_str())
            && self.metric_version == other.metric_version && same_mmr(&self.mmr, &other.mmr)
            && same_parent(&self.parent_retriever, &other.parent_retriever) && same_fusion(
            &self.fusion,
            &other.fusion,
        ) && same_context(&self.context, &other.context)
    }

    /// The conditions that a configuration and the arguments of a run set up.
    pub fn from_config(
        cfg: &Config,
        model: String,
        reranker: Option<String>,
        limit: u32,
        k_values: Vec<usize>,
        golden_hash: String,
    ) -> (r: Self)
        ensures
            r@ == configured(
                *cfg,
                model@,
                text::option_text(reranker),
                limit,
                k_values@,
                golden_hash@,
            ),
    {
        let mut mmr: Option<MmrFingerprint> = None;
        let mut parent_retriever: Option<ParentRetrieverFingerprint> = None;
        let mut fusion: Option<FusionFingerprint> = None;
        if let Some(s) = &cfg.search {
            if s.mmr.enabled {
                mmr = Some(
                    MmrFingerprint {
                        lambda: s.mmr.lambda,
                        same_doc_penalty: s.mmr.same_doc_penalty,
                    },
                );
            }
            if s.parent_retriever.enabled {
                parent_retriever = Some(
                    ParentRetrieverFingerprint {
                        whole_doc_threshold_tokens: s.parent_retriever.whole_doc_threshold_tokens,
                        max_expanded_tokens: s.parent_retriever.max_expanded_tokens,
                    },
                );
            }
            fusion = fusion_fingerprint(&s.fusion);
        }
        let intended = match &cfg.contextual {
            Some(c) => if c.enabled {
                Some(ContextMode::Static)
            } else {
                None
            },
            None => None,
        };
        ConfigFingerprint {
            model,
            reranker,
            limit,
            k_values,
            golden_hash,
            metric_version: METRIC_VERSION,
            mmr,
            parent_retriever,
            fusion,
            context: context_fingerprint(intended),
        }
    }

    /// The conditions that a run was really made under: what was asked for in the
    /// call counts before the configuration, and what the index was built with
    /// before what is intended for it.
    pub fn from_run(
        overrides: &SearchOverrides,
        search: &SearchConfig,
        context: Option<ContextMode>,
        model: String,
        reranker: Option<String>,
        limit: u32,
        k_values: Vec<usize>,
        golden_hash: String,
    ) -> (r: Self)
        ensures
            r@ == effective(
                *overrides,
                *search,
                context,
                model@,
                text::option_text(reranker),
                limit,
                k_values@,
                golden_hash@,
            ),
    {
        let resolved = overrides.resolve(search);
        let mmr = if resolved.mmr_enabled {
            Some(
                MmrFingerprint {
                    lambda: resolved.mmr_lambda,
                    same_doc_penalty: resolved.mmr_same_doc_penalty,
                },
            )
        } else {
            None
        };
        let parent_retriever = if resolved.parent_retriever_enabled {
            Some(
                ParentRetrieverFingerprint {
                    whole_doc_threshold_tokens: resolved.parent_whole_doc_threshold_tokens,
                    max_expanded_tokens: resolved.parent_max_expanded_tokens,
                },
            )
        } else {
            None
        };
        ConfigFingerprint {
            model,
            reranker,
            limit,
            k_values,
            golden_hash,
            metric_version: METRIC_VERSION,
            mmr,
            parent_retriever,
            fusion: fusion_fingerprint(&search.fusion),
            context: context_fingerprint(context),
        }
    }
}

/// The conditions that a configuration and the arguments of a run set up.
pub open spec fn configured(
    cfg: Config,
    model: Seq<char>,
    reranker: Option<Seq<char>>,
    limit: u32,
    k_values: Seq<usize>,
    golden_hash: Seq<char>,
) -> FingerprintText {
    FingerprintText {
        model,
        reranker,
        limit,
        k_values,
        golden_hash,
        metric_version: METRIC_VERSION,
        mmr: match cfg.search {
            Some(s) => mmr_of(s),
            None => None,
        },
        parent_retriever: match cfg.search {
            Some(s) => parent_of(s),
            None => None,
        },
        fusion: match cfg.search {
            Some(s) => fusion_of(s.fusion),
            None => None,
        },
        context: context_of(intended_context(cfg)),
    }
}

/// The section on searching as a call changes it.
pub open spec fn overridden(overrides: SearchOverrides, search: SearchConfig) -> SearchConfig {
    let resolved = overrides.resolved(search);
    SearchConfig {
        min_confidence_ratio: search.min_confidence_ratio,
        mmr: crate::config::MmrConfig {
            enabled: resolved.mmr_enabled,
            lambda: resolved.mmr_lambda,
            same_doc_penalty: resolved.mmr_same_doc_penalty,
        },
        parent_retriever: crate::config::ParentRetrieverConfig {
            enabled: resolved.parent_retriever_enabled,
            whole_doc_threshold_tokens: resolved.parent_whole_doc_threshold_tokens,
            max_expanded_tokens: resolved.parent_max_expanded_tokens,
        },
        fusion: search.fusion,
    }
}

/// The conditions that a run was really made under.
pub open spec fn effective(
    overrides: SearchOverrides,
    search: SearchConfig,
    context: Option<ContextMode>,
    model: Seq<char>,
    reranker: Option<Seq<char>>,
    limit: u32,
    k_values: Seq<usize>,
    golden_hash: Seq<char>,
) -> FingerprintText {
    let used = overridden(overrides, search);
    FingerprintText {
        model,
        reranker,
        limit,
        k_values,
        golden_hash,
        metric_version: METRIC_VERSION,
        mmr: mmr_of(used),
        parent_retriever: parent_of(used),
        fusion: fusion_of(used.fusion),
        context: context_of(context),
    }
}

/// Nothing is overridden.
pub open spec fn no_overrides(o: SearchOverrides) -> bool {
    o.mmr is None && o.mmr_lambda is None && o.mmr_same_doc_penalty is None
        && o.parent_retriever is None
}

/// A run without overrides, over an index built as the configuration says, is
/// made under the configured conditions.
pub proof fn plain_runs_are_as_configured(
    overrides: SearchOverrides,
    cfg: Config,
    model: Seq<char>,
    reranker: Option<Seq<char>>,
    limit: u32,
    k_values: Seq<usize>,
    golden_hash: Seq<char>,
)
    requires
        no_overrides(overrides),
        cfg.search is Some,
    ensures
        effective(
            overrides,
            cfg.search->0,
            intended_context(cfg),
            model,
            reranker,
            limit,
            k_values,
            golden_hash,
        ) == configured(cfg, model, reranker, limit, k_values, golden_hash),
{
}

/// A section that holds the defaults, or switches off what it configures, leaves
/// the same fingerprint as no section: older runs still compare.
pub proof fn what_is_off_leaves_no_trace(
    a: Config,
    b: Config,
    model: Seq<char>,
    reranker: Option<Seq<char>>,
    limit: u32,
    k_values: Seq<usize>,
    golden_hash: Seq<char>,
)
    requires
        a.search matches Some(s) ==> !s.mmr.enabled && !s.parent_retriever.enabled
            && s.fusion.equals(FusionConfig::builtin()),
        a.contextual matches Some(c) ==> !c.enabled,
        b.search is None,
        b.contextual is None,
    ensures
        configured(a, model, reranker, limit, k_values, golden_hash) == configured(
            b,
            model,
            reranker,
            limit,
            k_values,
            golden_hash,
        ),
        configured(a, model, reranker, limit, k_values, golden_hash).compatible(
            configured(b, model, reranker, limit, k_values, golden_hash),
        ),
{
}

/// A run that was made with other metrics does not compare.
pub proof fn legacy_runs_do_not_compare(a: FingerprintText, b: FingerprintText)
    requires
        a.metric_version == METRIC_VERSION,
        b.metric_version == 1,
    ensures
        !a.compatible(b),
{
}

} // verus!
