//! What is made of the results of runs, said of the results alone: means, comparisons,
//! depths and histories.

use crate::eval;
use crate::eval::GoldenQuery;
use crate::float::Float64;
use crate::history;
use crate::history::{
    AggregateInputs, AggregateMetrics, Comparison, EvalRun, QueryMetrics, QueryResult,
};
use vstd::prelude::*;

verus! {

/// The queries that expect something.
pub open spec fn expects_something() -> spec_fn(QueryResult) -> bool {
    |q: QueryResult| q.expected@.len() > 0
}

/// Means are taken over the queries that expect something, each counted once and none
/// other.
pub proof fn means_leave_out_queries_that_expect_nothing(
    qs: Seq<QueryResult>,
    value: spec_fn(QueryResult) -> Float64,
)
    ensures
        history::counted_values(qs, value) == qs.filter(expects_something()).map_values(value),
        history::expecting(qs) == qs.filter(expects_something()).len(),
    decreases qs.len(),
{
    reveal(Seq::filter);
    if qs.len() > 0 {
        let front = qs.drop_last();
        means_leave_out_queries_that_expect_nothing(front, value);
        let before = front.filter(expects_something());
        assert(before.push(qs.last()).map_values(value) =~= before.map_values(value).push(
            value(qs.last()),
        ));
    }
    assert(history::counted_values(qs, value) =~= qs.filter(expects_something()).map_values(
        value,
    ));
}

/// What means are taken of: the value that a query has at a depth, and nothing where it has
/// none.
pub proof fn means_are_of_the_values_of_the_queries(q: QueryResult, k: usize)
    ensures
        history::rank_value()(q) == q.metrics.reciprocal_rank,
        q.metrics.recall_at_k@.contains_key(k) ==> history::recall_value(k)(q)
            == q.metrics.recall_at_k@[k],
        !q.metrics.recall_at_k@.contains_key(k) ==> history::recall_value(k)(q)
            == (Float64 { bits: 0 }),
        q.metrics.ndcg_at_k@.contains_key(k) ==> history::ndcg_value(k)(q)
            == q.metrics.ndcg_at_k@[k],
        !q.metrics.ndcg_at_k@.contains_key(k) ==> history::ndcg_value(k)(q)
            == (Float64 { bits: 0 }),
{
}

/// The means of a run are taken at every depth, in the order of the depths, of the values of
/// the queries that expect something, each at its own depth.
pub proof fn means_are_taken_at_every_depth(
    qs: Seq<QueryResult>,
    ks: Seq<usize>,
    a: AggregateInputs,
    i: int,
    j: int,
)
    requires
        history::inputs_of(qs, ks, a),
    ensures
        ({
            let counted = qs.filter(expects_something());
            &&& a.reciprocal_ranks@.len() == counted.len()
            &&& 0 <= j < counted.len() ==> a.reciprocal_ranks@[j]
                == counted[j].metrics.reciprocal_rank
            &&& a.recall_at_k@.len() == ks.len()
            &&& a.ndcg_at_k@.len() == ks.len()
            &&& 0 <= i < ks.len() ==> {
                &&& a.recall_at_k@[i].0 == ks[i]
                &&& a.ndcg_at_k@[i].0 == ks[i]
                &&& a.recall_at_k@[i].1@.len() == counted.len()
                &&& a.ndcg_at_k@[i].1@.len() == counted.len()
            }
            &&& 0 <= i < ks.len() && 0 <= j < counted.len() ==> {
                &&& a.recall_at_k@[i].1@[j] == value_or_nothing(
                    counted[j].metrics.recall_at_k@,
                    ks[i],
                )
                &&& a.ndcg_at_k@[i].1@[j] == value_or_nothing(
                    counted[j].metrics.ndcg_at_k@,
                    ks[i],
                )
            }
        }),
{
    means_leave_out_queries_that_expect_nothing(qs, history::rank_value());
    if 0 <= i < ks.len() {
        means_leave_out_queries_that_expect_nothing(qs, history::recall_value(ks[i]));
        means_leave_out_queries_that_expect_nothing(qs, history::ndcg_value(ks[i]));
        assert(a.recall_at_k@[i].0 == ks[i]);
        assert(a.ndcg_at_k@[i].0 == ks[i]);
    }
}

/// The means of a finished run are there for exactly its depths and count the queries that
/// expect something; without such a query there are none.
pub proof fn means_are_there_for_every_depth(
    a: AggregateMetrics,
    qs: Seq<QueryResult>,
    ks: Seq<usize>,
    k: usize,
)
    requires
        history::averaged_over(a, qs, ks),
    ensures
        a.query_count == qs.filter(expects_something()).len(),
        a.query_count > 0 ==> (a.recall_at_k@.contains_key(k) <==> ks.contains(k)) && (
        a.ndcg_at_k@.contains_key(k) <==> ks.contains(k)),
        a.query_count == 0 ==> !a.recall_at_k@.contains_key(k) && !a.ndcg_at_k@.contains_key(k)
            && a.mrr.bits == 0,
{
    means_leave_out_queries_that_expect_nothing(qs, history::rank_value());
}

/// The metrics of a query are there for exactly the depths of the run.
pub proof fn metrics_are_there_for_every_depth(m: QueryMetrics, ks: Seq<usize>, k: usize)
    requires
        history::measured_at(m, ks),
    ensures
        m.recall_at_k@.contains_key(k) <==> ks.contains(k),
        m.ndcg_at_k@.contains_key(k) <==> ks.contains(k),
{
}

/// The value at a depth, and nothing where there is none.
pub open spec fn value_or_nothing(m: Map<usize, Float64>, k: usize) -> Float64 {
    if m.contains_key(k) {
        m[k]
    } else {
        Float64 { bits: 0 }
    }
}

/// All values of a run are finite.
pub open spec fn finite_throughout(m: AggregateMetrics) -> bool {
    &&& m.mrr.is_finite()
    &&& forall|k: usize| m.recall_at_k@.contains_key(k) ==> (#[trigger] m.recall_at_k@[k]).is_finite()
    &&& forall|k: usize| m.ndcg_at_k@.contains_key(k) ==> (#[trigger] m.ndcg_at_k@[k]).is_finite()
}

/// Every metric of a run is compared with the same metric of a finite run before: the mean
/// reciprocal rank, and recall and gain at each depth, unless the new value is not finite.
pub proof fn every_metric_is_compared(now: AggregateMetrics, prev: AggregateMetrics, k: usize)
    requires
        finite_throughout(prev),
    ensures
        now.mrr.is_finite() ==> history::compared(
            now,
            prev,
            (Comparison { now: now.mrr, prev: prev.mrr }),
        ),
        now.recall_at_k@.contains_key(k) && now.recall_at_k@[k].is_finite() ==> history::compared(
            now,
            prev,
            (Comparison {
                now: now.recall_at_k@[k],
                prev: value_or_nothing(prev.recall_at_k@, k),
            }),
        ),
        now.ndcg_at_k@.contains_key(k) && now.ndcg_at_k@[k].is_finite() ==> history::compared(
            now,
            prev,
            (Comparison { now: now.ndcg_at_k@[k], prev: value_or_nothing(prev.ndcg_at_k@, k) }),
        ),
{
    assert(history::sound_baseline(prev));
}

/// Nothing else is compared: a comparison is of the mean reciprocal ranks, or of recalls or
/// gains at one depth of the new run, both finite, with a run that is finite throughout.
pub proof fn only_like_is_compared_with_like(
    now: AggregateMetrics,
    prev: AggregateMetrics,
    c: Comparison,
)
    requires
        history::compared(now, prev, c),
    ensures
        finite_throughout(prev),
        c.now.is_finite(),
        c.prev.is_finite(),
        (c.now == now.mrr && c.prev == prev.mrr) || (exists|k: usize| #[trigger]
            now.recall_at_k@.contains_key(k) && c.now == now.recall_at_k@[k] && c.prev
                == value_or_nothing(prev.recall_at_k@, k)) || (exists|k: usize| #[trigger]
            now.ndcg_at_k@.contains_key(k) && c.now == now.ndcg_at_k@[k] && c.prev
                == value_or_nothing(prev.ndcg_at_k@, k)),
{
    if exists|k: usize| #[trigger]
        now.recall_at_k@.contains_key(k) && c == history::pair_at(
            now.recall_at_k@,
            prev.recall_at_k@,
            k,
        ).1 {
        let k = choose|k: usize| #[trigger]
            now.recall_at_k@.contains_key(k) && c == history::pair_at(
                now.recall_at_k@,
                prev.recall_at_k@,
                k,
            ).1;
        assert(now.recall_at_k@.contains_key(k));
    }
    if exists|k: usize| #[trigger]
        now.ndcg_at_k@.contains_key(k) && c == history::pair_at(
            now.ndcg_at_k@,
            prev.ndcg_at_k@,
            k,
        ).1 {
        let k = choose|k: usize| #[trigger]
            now.ndcg_at_k@.contains_key(k) && c == history::pair_at(
                now.ndcg_at_k@,
                prev.ndcg_at_k@,
                k,
            ).1;
        assert(now.ndcg_at_k@.contains_key(k));
    }
}

/// A run is worse where some value fell by more than the threshold, whichever it is; more
/// drops never make it better.
pub proof fn one_drop_is_enough(drops: Seq<Float64>, more: Seq<Float64>, threshold: Float64, i: int)
    ensures
        0 <= i < drops.len() && threshold.below(drops[i]) ==> history::worse(drops, threshold),
        history::worse(drops, threshold) || history::worse(more, threshold) <==> history::worse(
            drops + more,
            threshold,
        ),
        (forall|j: int| 0 <= j < drops.len() ==> !threshold.below(#[trigger] drops[j]))
            ==> !history::worse(drops, threshold),
{
    let all = drops + more;
    if history::worse(drops, threshold) {
        let j = choose|j: int| 0 <= j < drops.len() && threshold.below(#[trigger] drops[j]);
        assert(all[j] == drops[j]);
    }
    if history::worse(more, threshold) {
        let j = choose|j: int| 0 <= j < more.len() && threshold.below(#[trigger] more[j]);
        assert(all[drops.len() + j] == more[j]);
    }
    if history::worse(all, threshold) {
        let j = choose|j: int| 0 <= j < all.len() && threshold.below(#[trigger] all[j]);
        if j < drops.len() {
            assert(threshold.below(drops[j]));
        } else {
            assert(threshold.below(more[j - drops.len()]));
        }
    }
}

/// A run is shown against the one before it exactly where there is one that was made under
/// the same conditions.
pub proof fn only_comparable_runs_are_shown_against_each_other(
    run: EvalRun,
    previous: Option<&EvalRun>,
)
    ensures
        previous is None ==> !history::diff_enabled(run, previous),
        previous is Some ==> (history::diff_enabled(run, previous)
            <==> previous->0.fingerprint@.compatible(run.fingerprint@)),
{
}

/// A history keeps the latest runs, the new one first, as many as it may hold.
pub proof fn histories_keep_the_latest<A>(run: A, runs: Seq<A>, size: nat, i: int)
    ensures
        history::at_most(seq![run] + runs, size).len() == (if runs.len() + 1 < size {
            runs.len() + 1
        } else {
            size
        }),
        0 <= i < history::at_most(seq![run] + runs, size).len() ==> history::at_most(
            seq![run] + runs,
            size,
        )[i] == (if i == 0 {
            run
        } else {
            runs[i - 1]
        }),
{
}

// ---------------------------------------------------------------------------
// Depths and names
// ---------------------------------------------------------------------------

/// Depths are cut at a thousand, and no other is changed.
pub proof fn depths_are_cut_at_a_thousand(k: usize)
    ensures
        k <= 1000 ==> eval::capped(k) == k,
        k >= 1000 ==> eval::capped(k) == 1000,
{
}

/// The depths of a run: each depth that was asked for is there, cut at a thousand, once and
/// in increasing order, and no other.
pub proof fn depths_are_those_asked_for(ks: Seq<usize>, r: Seq<usize>, i: int, j: int)
    requires
        eval::normal_depths(ks, r),
    ensures
        0 <= i < ks.len() ==> r.contains(
            if ks[i] < 1000 {
                ks[i]
            } else {
                1000
            },
        ),
        0 <= i < j < r.len() ==> r[i] < r[j],
        0 <= i < r.len() ==> r[i] <= 1000 && exists|n: int|
            0 <= n < ks.len() && (#[trigger] ks[n] == r[i] || (r[i] == 1000 && ks[n] >= 1000)),
{
    if 0 <= i < ks.len() {
        assert(eval::capped(ks[i]) == eval::capped(ks[i]));
        assert(r.contains(eval::capped(ks[i])));
    }
    if 0 <= i < r.len() {
        assert(r.contains(r[i]));
        let n = choose|n: int| 0 <= n < ks.len() && r[i] == eval::capped(#[trigger] ks[n]);
        assert(ks[n] == r[i] || (r[i] == 1000 && ks[n] >= 1000));
    }
}

/// The largest depth is one of the depths, and none is larger; there is none only where
/// there are no depths.
pub proof fn the_largest_depth_is_one_of_them(ks: Seq<usize>)
    ensures
        eval::largest(ks) is None <==> ks.len() == 0,
        eval::largest(ks) matches Some(m) ==> ks.contains(m) && forall|i: int|
            0 <= i < ks.len() ==> #[trigger] ks[i] <= m,
    decreases ks.len(),
{
    if ks.len() > 0 {
        let front = ks.drop_last();
        the_largest_depth_is_one_of_them(front);
        let m = eval::largest(ks)->0;
        if m == ks.last() {
            assert(ks[ks.len() - 1] == m);
        } else {
            let i = choose|i: int| 0 <= i < front.len() && front[i] == m;
            assert(ks[i] == m);
        }
        assert forall|i: int| 0 <= i < ks.len() implies #[trigger] ks[i] <= m by {
            if i < front.len() {
                assert(front[i] == ks[i]);
            }
        }
    }
}

/// Enough hits are retrieved for the limit and for every depth, and no more than the largest
/// of these; without depths, ten at least.
pub proof fn enough_is_retrieved_for_every_depth(limit: u32, ks: Seq<usize>, i: int)
    ensures
        eval::depth_for(limit, ks) >= limit,
        0 <= i < ks.len() ==> eval::depth_for(limit, ks) >= ks[i],
        ks.len() > 0 ==> eval::depth_for(limit, ks) == limit || ks.contains(
            eval::depth_for(limit, ks),
        ),
        ks.len() == 0 && limit <= 10 ==> eval::depth_for(limit, ks) == 10,
        ks.len() == 0 && limit >= 10 ==> eval::depth_for(limit, ks) == limit,
{
    the_largest_depth_is_one_of_them(ks);
}

/// The values of two runs are paired depth by depth: every depth of the new run is there
/// once, in increasing order, with its value and the value before, or nothing where there
/// was none.
pub proof fn every_depth_is_paired(
    now: Map<usize, Float64>,
    prev: Map<usize, Float64>,
    r: Seq<(usize, Comparison)>,
    i: int,
    j: int,
    k: usize,
)
    requires
        history::pairs_up(now, prev, r),
    ensures
        0 <= i < j < r.len() ==> r[i].0 < r[j].0,
        0 <= i < r.len() ==> now.contains_key(r[i].0) && r[i].1.now == now[r[i].0] && r[i].1.prev
            == value_or_nothing(prev, r[i].0),
        now.contains_key(k) ==> exists|m: int| 0 <= m < r.len() && (#[trigger] r[m]).0 == k,
{
    if now.contains_key(k) {
        let x = history::pair_at(now, prev, k);
        assert(r.contains(x));
        let m = choose|m: int| 0 <= m < r.len() && r[m] == x;
        assert(r[m].0 == k);
    }
}

/// A query goes by its id, or by its own text, cut after 32 characters, where it has none.
pub proof fn queries_go_by_their_id(q: GoldenQuery)
    ensures
        q.id is Some ==> eval::name_of(q) == q.id->0@,
        q.id is None && q.query@.len() <= 32 ==> eval::name_of(q) == q.query@,
        q.id is None && q.query@.len() >= 32 ==> eval::name_of(q) == q.query@.take(32),
{
    if q.query@.len() == 32 {
        assert(q.query@.take(32) =~= q.query@);
    }
}

/// What is recorded for a query is what was asked: its name, its text and the hits that it
/// expects, with hits that are ranked from 1 on.
pub proof fn records_are_of_their_queries(q: GoldenQuery, r: QueryResult, i: int)
    requires
        eval::recorded(q, r),
    ensures
        r.id@ == eval::name_of(q),
        r.query@ == q.query@,
        r.expected@.len() == q.expected@.len(),
        0 <= i < q.expected@.len() ==> r.expected@[i].path@ == q.expected@[i].path@ && (
        r.expected@[i].heading is Some <==> q.expected@[i].heading is Some),
        0 <= i < q.expected@.len() && q.expected@[i].heading is Some
            ==> r.expected@[i].heading->0@ == q.expected@[i].heading->0@,
        0 <= i < r.top_k@.len() ==> r.top_k@[i].rank == i + 1,
{
    assert(eval::expected_texts(r.expected@).len() == r.expected@.len());
    assert(eval::expected_texts(q.expected@).len() == q.expected@.len());
    if 0 <= i < q.expected@.len() {
        assert(eval::expected_texts(r.expected@)[i] == eval::expected_texts(q.expected@)[i]);
    }
}

/// A search returns as many hits as are asked for, and 1000 where more are.
pub proof fn searches_return_a_thousand_at_most(limit: u32)
    ensures
        limit <= 1000 ==> eval::limit_bound(limit) == limit,
        limit >= 1000 ==> eval::limit_bound(limit) == 1000,
{
}

/// Whether the index changed is known exactly where both runs say what it was, and it
/// changed exactly where they say different things.
pub proof fn changes_are_known_from_both_runs(run: EvalRun, previous: Option<&EvalRun>)
    ensures
        history::corpus_change(run, previous) is Some <==> run.corpus is Some && previous is Some
            && previous->0.corpus is Some,
        history::corpus_change(run, previous) is Some ==> (history::corpus_change(
            run,
            previous,
        )->0 <==> run.corpus->0@ != previous->0.corpus->0@),
{
}

/// A run is compared with the one before it and with no older one, and only where both
/// were made under the same conditions.
pub proof fn runs_compare_with_the_latest(runs: Seq<EvalRun>, now: EvalRun)
    ensures
        runs.len() == 0 ==> history::latest_compatible(runs, now) is None,
        runs.len() > 0 ==> (history::latest_compatible(runs, now) is Some
            <==> runs[0].fingerprint@.compatible(now.fingerprint@)),
        history::latest_compatible(runs, now) is Some ==> history::latest_compatible(runs, now)->0
            == runs[0],
{
}

} // verus!
