//! What settings mean and which are refused, said of their values alone.

use crate::config;
use crate::config::{
    Bm25Column, Config, ConfigError, FusionConfig, ResolvedSearchConfig, SearchConfig,
    SearchOverrides,
};
use crate::db::{ContextMode, FusionParams};
use crate::fingerprint;
use crate::fingerprint::FingerprintText;
use crate::float::Float32;
use crate::path::PathText;
use vstd::prelude::*;

verus! {

/// What a call asks for counts before what is configured, setting by setting. The sizes of
/// the parent retriever cannot be asked for.
pub proof fn calls_override_what_is_configured(o: SearchOverrides, toml: SearchConfig)
    ensures
        ({
            let r: ResolvedSearchConfig = o.resolved(toml);
            &&& o.mmr is Some ==> r.mmr_enabled == o.mmr->0
            &&& o.mmr is None ==> r.mmr_enabled == toml.mmr.enabled
            &&& o.mmr_lambda is Some ==> r.mmr_lambda == o.mmr_lambda->0
            &&& o.mmr_lambda is None ==> r.mmr_lambda == toml.mmr.lambda
            &&& o.mmr_same_doc_penalty is Some ==> r.mmr_same_doc_penalty
                == o.mmr_same_doc_penalty->0
            &&& o.mmr_same_doc_penalty is None ==> r.mmr_same_doc_penalty
                == toml.mmr.same_doc_penalty
            &&& o.parent_retriever is Some ==> r.parent_retriever_enabled
                == o.parent_retriever->0
            &&& o.parent_retriever is None ==> r.parent_retriever_enabled
                == toml.parent_retriever.enabled
            &&& r.parent_whole_doc_threshold_tokens
                == toml.parent_retriever.whole_doc_threshold_tokens
            &&& r.parent_max_expanded_tokens == toml.parent_retriever.max_expanded_tokens
        }),
{
}

/// A number from one bound to the other, both given by their bits.
pub open spec fn within_bits(x: Float32, low: u32, high: u32) -> bool {
    !x.is_nan() && !x.below(Float32 { bits: low }) && !Float32 { bits: high }.below(x)
}

/// A number that is zero, of either sign.
pub open spec fn is_zero(x: Float32) -> bool {
    x.bits == 0 || x.bits == 0x8000_0000
}

/// Which search settings are accepted: the two MMR values lie from 0 to 1, the parent
/// retriever expands to more tokens than a whole document is, and to 8192 at most, the
/// constant of fusion lies from 1 to a million, the three weights from 0 to a million, and
/// not all of these are 0.
pub proof fn accepted_settings_are_in_range(s: SearchConfig)
    ensures
        config::search_error(s) is None <==> {
            &&& within_bits(s.mmr.lambda, 0, 0x3f80_0000)
            &&& within_bits(s.mmr.same_doc_penalty, 0, 0x3f80_0000)
            &&& s.parent_retriever.max_expanded_tokens
                > s.parent_retriever.whole_doc_threshold_tokens
            &&& s.parent_retriever.max_expanded_tokens <= 8192
            &&& within_bits(s.fusion.rrf_k, 0x3f80_0000, 0x4974_2400)
            &&& within_bits(s.fusion.bm25_heading_weight, 0, 0x4974_2400)
            &&& within_bits(s.fusion.bm25_context_weight, 0, 0x4974_2400)
            &&& within_bits(s.fusion.bm25_content_weight, 0, 0x4974_2400)
            &&& !(is_zero(s.fusion.bm25_heading_weight) && is_zero(s.fusion.bm25_context_weight)
                && is_zero(s.fusion.bm25_content_weight))
        },
{
}

/// The setting that is refused is the first that is out of range, with its value.
pub proof fn the_first_bad_setting_is_refused(s: SearchConfig)
    ensures
        ({
            let e = config::search_error(s);
            let f = s.fusion;
            let lambda = within_bits(s.mmr.lambda, 0, 0x3f80_0000);
            let penalty = within_bits(s.mmr.same_doc_penalty, 0, 0x3f80_0000);
            let max = s.parent_retriever.max_expanded_tokens;
            let whole = s.parent_retriever.whole_doc_threshold_tokens;
            let so_far = lambda && penalty && max > whole && max <= 8192;
            let k = within_bits(f.rrf_k, 0x3f80_0000, 0x4974_2400);
            let heading = within_bits(f.bm25_heading_weight, 0, 0x4974_2400);
            let context = within_bits(f.bm25_context_weight, 0, 0x4974_2400);
            let content = within_bits(f.bm25_content_weight, 0, 0x4974_2400);
            &&& !lambda ==> e == Some(ConfigError::MmrLambda { got: s.mmr.lambda })
            &&& lambda && !penalty ==> e == Some(
                ConfigError::MmrSameDocPenalty { got: s.mmr.same_doc_penalty },
            )
            &&& lambda && penalty && max <= whole ==> e == Some(
                ConfigError::ParentOrder {
                    max_expanded_tokens: max,
                    whole_doc_threshold_tokens: whole,
                },
            )
            &&& lambda && penalty && max > whole && max > 8192 ==> e == Some(
                ConfigError::ParentCap { max_expanded_tokens: max },
            )
            &&& so_far && !k ==> e == Some(ConfigError::RrfK { got: f.rrf_k })
            &&& so_far && k && !heading ==> e == Some(
                ConfigError::Bm25Weight {
                    column: Bm25Column::Heading,
                    got: f.bm25_heading_weight,
                },
            )
            &&& so_far && k && heading && !context ==> e == Some(
                ConfigError::Bm25Weight {
                    column: Bm25Column::Context,
                    got: f.bm25_context_weight,
                },
            )
            &&& so_far && k && heading && context && !content ==> e == Some(
                ConfigError::Bm25Weight {
                    column: Bm25Column::Content,
                    got: f.bm25_content_weight,
                },
            )
            &&& so_far && k && heading && context && content && is_zero(f.bm25_heading_weight)
                && is_zero(f.bm25_context_weight) && is_zero(f.bm25_content_weight) ==> e == Some(
                ConfigError::AllWeightsZero,
            )
        }),
{
}

/// Fusion is as built in exactly where its constant is 60, the weight of headings 2 and the
/// other two weights 1.
pub proof fn builtin_fusion_is_sixty_and_two_to_one(f: FusionConfig)
    ensures
        f.equals(FusionConfig::builtin()) <==> f.rrf_k.bits == 0x4270_0000
            && f.bm25_heading_weight.bits == 0x4000_0000 && f.bm25_context_weight.bits
            == 0x3f80_0000 && f.bm25_content_weight.bits == 0x3f80_0000,
        ({
            let p = <FusionParams as vstd::std_specs::convert::FromSpec<&FusionConfig>>::from_spec(
                &f,
            );
            &&& p.rrf_k == f.rrf_k
            &&& p.bm25_heading_weight == f.bm25_heading_weight
            &&& p.bm25_context_weight == f.bm25_context_weight
            &&& p.bm25_content_weight == f.bm25_content_weight
        }),
{
}

/// The paths of a configuration are taken from the directory that holds it; an absolute
/// path stays as it is, and so does every path where the directory is not known.
pub proof fn configured_paths_start_at_the_configuration(base: PathText, p: PathText)
    ensures
        config::rebased(None, Some(p)) == Some(p),
        config::rebased(Some(base), None) is None,
        config::rebased(None, None) is None,
        p.root is Some ==> config::rebased(Some(base), Some(p)) == Some(p),
        p.root is None ==> config::rebased(Some(base), Some(p)) == Some(
            PathText { root: base.root, parts: base.parts + p.parts },
        ),
{
}

/// Finishing a configuration changes nothing but its paths.
pub proof fn only_paths_change(a: Config, b: Config)
    requires
        a.same_but_paths(b),
    ensures
        a.model == b.model,
        a.reranker == b.reranker,
        a.rerank_by_default == b.rerank_by_default,
        a.exclude_headings == b.exclude_headings,
        a.exclude_dirs == b.exclude_dirs,
        a.quality_filter == b.quality_filter,
        a.best_practice == b.best_practice,
        a.parsers == b.parsers,
        a.watch == b.watch,
        a.transport == b.transport,
        a.search == b.search,
        a.contextual == b.contextual,
{
}

/// A configuration says nothing exactly where none of its entries is there.
pub proof fn one_entry_says_something(c: Config)
    ensures
        c.says_nothing() <==> !(c.kb_path is Some || c.model is Some || c.reranker is Some
            || c.rerank_by_default is Some || c.fastembed_cache_dir is Some
            || c.exclude_headings is Some || c.exclude_dirs is Some || c.quality_filter is Some
            || c.best_practice is Some || c.parsers is Some || c.watch is Some
            || c.transport is Some || c.eval is Some || c.search is Some || c.contextual is Some),
{
}

// ---------------------------------------------------------------------------
// The conditions of a run
// ---------------------------------------------------------------------------

/// Two runs compare exactly where every single condition is the same: one that differs
/// is enough to keep them apart.
pub proof fn runs_compare_where_every_condition_is_the_same(a: FingerprintText, b: FingerprintText)
    ensures
        a.compatible(b) ==> a.model == b.model && a.reranker == b.reranker && a.limit == b.limit
            && a.k_values == b.k_values && a.golden_hash == b.golden_hash && a.metric_version
            == b.metric_version && a.parent_retriever == b.parent_retriever && a.context
            == b.context,
        a.compatible(b) ==> (a.mmr is Some <==> b.mmr is Some) && (a.fusion is Some
            <==> b.fusion is Some),
        a.compatible(b) && a.mmr is Some ==> a.mmr->0.lambda.equals(b.mmr->0.lambda)
            && a.mmr->0.same_doc_penalty.equals(b.mmr->0.same_doc_penalty),
        a.compatible(b) && a.fusion is Some ==> a.fusion->0.rrf_k.equals(b.fusion->0.rrf_k)
            && a.fusion->0.bm25_heading_weight.equals(b.fusion->0.bm25_heading_weight)
            && a.fusion->0.bm25_context_weight.equals(b.fusion->0.bm25_context_weight)
            && a.fusion->0.bm25_content_weight.equals(b.fusion->0.bm25_content_weight),
        a == b && (a.mmr is Some ==> !a.mmr->0.lambda.is_nan()
            && !a.mmr->0.same_doc_penalty.is_nan()) && (a.fusion is Some
            ==> !a.fusion->0.rrf_k.is_nan() && !a.fusion->0.bm25_heading_weight.is_nan()
            && !a.fusion->0.bm25_context_weight.is_nan()
            && !a.fusion->0.bm25_content_weight.is_nan()) ==> a.compatible(b),
{
}

/// What a run records of itself: what it was given, and what was really used, override or
/// not. What was off, or as built in, is not recorded.
pub proof fn runs_record_what_was_used(
    o: SearchOverrides,
    toml: SearchConfig,
    context: Option<ContextMode>,
    model: Seq<char>,
    reranker: Option<Seq<char>>,
    limit: u32,
    k_values: Seq<usize>,
    golden_hash: Seq<char>,
)
    ensures
        ({
            let f = fingerprint::effective(
                o,
                toml,
                context,
                model,
                reranker,
                limit,
                k_values,
                golden_hash,
            );
            let mmr_on = if o.mmr is Some {
                o.mmr->0
            } else {
                toml.mmr.enabled
            };
            let parent_on = if o.parent_retriever is Some {
                o.parent_retriever->0
            } else {
                toml.parent_retriever.enabled
            };
            &&& f.model == model
            &&& f.reranker == reranker
            &&& f.limit == limit
            &&& f.k_values == k_values
            &&& f.golden_hash == golden_hash
            &&& f.metric_version == 2
            &&& f.mmr is Some <==> mmr_on
            &&& mmr_on && o.mmr_lambda is Some ==> f.mmr->0.lambda == o.mmr_lambda->0
            &&& mmr_on && o.mmr_lambda is None ==> f.mmr->0.lambda == toml.mmr.lambda
            &&& mmr_on && o.mmr_same_doc_penalty is Some ==> f.mmr->0.same_doc_penalty
                == o.mmr_same_doc_penalty->0
            &&& mmr_on && o.mmr_same_doc_penalty is None ==> f.mmr->0.same_doc_penalty
                == toml.mmr.same_doc_penalty
            &&& f.parent_retriever is Some <==> parent_on
            &&& parent_on ==> f.parent_retriever->0.whole_doc_threshold_tokens
                == toml.parent_retriever.whole_doc_threshold_tokens
                && f.parent_retriever->0.max_expanded_tokens
                == toml.parent_retriever.max_expanded_tokens
            &&& f.fusion is None <==> toml.fusion.equals(FusionConfig::builtin())
            &&& f.fusion is Some ==> f.fusion->0.rrf_k == toml.fusion.rrf_k
                && f.fusion->0.bm25_heading_weight == toml.fusion.bm25_heading_weight
                && f.fusion->0.bm25_context_weight == toml.fusion.bm25_context_weight
                && f.fusion->0.bm25_content_weight == toml.fusion.bm25_content_weight
            &&& context == Some(ContextMode::Static) ==> f.context == Some("static"@)
            &&& context != Some(ContextMode::Static) ==> f.context is None
        }),
{
}

/// What is configured is recorded in the same way, and nothing where nothing is
/// configured.
pub proof fn configurations_record_what_is_on(
    cfg: Config,
    model: Seq<char>,
    reranker: Option<Seq<char>>,
    limit: u32,
    k_values: Seq<usize>,
    golden_hash: Seq<char>,
)
    ensures
        ({
            let f = fingerprint::configured(cfg, model, reranker, limit, k_values, golden_hash);
            &&& f.model == model
            &&& f.reranker == reranker
            &&& f.limit == limit
            &&& f.k_values == k_values
            &&& f.golden_hash == golden_hash
            &&& f.metric_version == 2
            &&& cfg.search is None ==> f.mmr is None && f.parent_retriever is None
                && f.fusion is None
            &&& cfg.search matches Some(s) ==> {
                &&& f.mmr is Some <==> s.mmr.enabled
                &&& f.mmr is Some ==> f.mmr->0.lambda == s.mmr.lambda
                    && f.mmr->0.same_doc_penalty == s.mmr.same_doc_penalty
                &&& f.parent_retriever is Some <==> s.parent_retriever.enabled
                &&& f.parent_retriever is Some
                    ==> f.parent_retriever->0.whole_doc_threshold_tokens
                    == s.parent_retriever.whole_doc_threshold_tokens
                    && f.parent_retriever->0.max_expanded_tokens
                    == s.parent_retriever.max_expanded_tokens
                &&& f.fusion is None <==> s.fusion.equals(FusionConfig::builtin())
                &&& f.fusion is Some ==> f.fusion->0.rrf_k == s.fusion.rrf_k
                    && f.fusion->0.bm25_heading_weight == s.fusion.bm25_heading_weight
                    && f.fusion->0.bm25_context_weight == s.fusion.bm25_context_weight
                    && f.fusion->0.bm25_content_weight == s.fusion.bm25_content_weight
            }
            &&& f.context is Some <==> cfg.contextual is Some && cfg.contextual->0.enabled
            &&& f.context is Some ==> f.context == Some("static"@)
        }),
{
}

} // verus!
