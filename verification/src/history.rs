//! Evaluation runs, their history, and what is compared between two of them.

use crate::corpus;
use crate::corpus::CorpusSnapshot;
use crate::fingerprint::ConfigFingerprint;
use crate::float::Float64;
use crate::metrics::{ExpectedHit, HitRecord};
use crate::time::Timestamp;
use std::collections::{BTreeMap, VecDeque};
use vstd::prelude::*;

verus! {

/// The metrics of one query, by depth.
#[derive(Debug, Clone)]
pub struct QueryMetrics {
    pub recall_at_k: BTreeMap<usize, Float64>,
    pub reciprocal_rank: Float64,
    pub ndcg_at_k: BTreeMap<usize, Float64>,
}

impl Default for QueryMetrics {
    fn default() -> (r: Self)
        ensures
            r.recall_at_k@ == Map::<usize, Float64>::empty(),
            r.reciprocal_rank == Float64::zero(),
            r.ndcg_at_k@ == Map::<usize, Float64>::empty(),
    {
        QueryMetrics {
            recall_at_k: BTreeMap::new(),
            reciprocal_rank: Float64::from_bits(0),
            ndcg_at_k: BTreeMap::new(),
        }
    }
}

/// The means over the queries, by depth.
#[derive(Debug, Clone)]
pub struct AggregateMetrics {
    pub recall_at_k: BTreeMap<usize, Float64>,
    pub mrr: Float64,
    pub ndcg_at_k: BTreeMap<usize, Float64>,
    pub query_count: usize,
}

impl Default for AggregateMetrics {
    fn default() -> (r: Self)
        ensures
            r.recall_at_k@ == Map::<usize, Float64>::empty(),
            r.mrr == Float64::zero(),
            r.ndcg_at_k@ == Map::<usize, Float64>::empty(),
            r.query_count == 0,
    {
        AggregateMetrics {
            recall_at_k: BTreeMap::new(),
            mrr: Float64::from_bits(0),
            ndcg_at_k: BTreeMap::new(),
            query_count: 0,
        }
    }
}

/// One query of a run.
#[derive(Debug, Clone)]
pub struct QueryResult {
    pub id: String,
    pub query: String,
    pub expected: Vec<ExpectedHit>,
    pub top_k: Vec<HitRecord>,
    pub metrics: QueryMetrics,
}

/// One run.
#[derive(Debug, Clone)]
pub struct EvalRun {
    pub timestamp: Timestamp,
    pub fingerprint: ConfigFingerprint,
    /// The index that was measured. It is reported but plays no part in whether
    /// runs compare: a knowledge base grows every day.
    pub corpus: Option<CorpusSnapshot>,
    pub per_query: Vec<QueryResult>,
    pub aggregate: AggregateMetrics,
}

/// The value at a depth; 0 where there is none.
pub open spec fn value_at(m: Map<usize, Float64>, k: usize) -> Float64 {
    if m.contains_key(k) {
        m[k]
    } else {
        Float64::zero()
    }
}

/// The value at a depth; 0 where there is none.
pub fn value_or_zero(m: &BTreeMap<usize, Float64>, k: usize) -> (r: Float64)
    ensures
        r == value_at(m@, k),
{
    broadcast use vstd::std_specs::btree::group_btree_axioms;

    match m.get(&k) {
        Some(v) => *v,
        None => Float64::from_bits(0),
    }
}

/// A value now and before.
#[derive(Debug, Clone, Copy, PartialEq, Eq, Structural)]
pub struct Comparison {
    pub now: Float64,
    pub prev: Float64,
}

/// A depth with its value now and before.
pub open spec fn pair_at(now: Map<usize, Float64>, prev: Map<usize, Float64>, k: usize) -> (
    usize,
    Comparison,
) {
    (k, Comparison { now: now[k], prev: value_at(prev, k) })
}

/// `r` holds each depth of `now` once, in order, with its values.
pub open spec fn pairs_up(
    now: Map<usize, Float64>,
    prev: Map<usize, Float64>,
    r: Seq<(usize, Comparison)>,
) -> bool {
    &&& forall|i: int, j: int| 0 <= i < j < r.len() ==> (#[trigger] r[i]).0 < (#[trigger] r[j]).0
    &&& forall|i: int|
        0 <= i < r.len() ==> now.contains_key((#[trigger] r[i]).0) && r[i] == pair_at(
            now,
            prev,
            r[i].0,
        )
    &&& forall|k: usize| #[trigger]
        now.contains_key(k) ==> r.contains(pair_at(now, prev, k))
}

/// Each depth of `now` with its value now and before.
pub fn paired(now: &BTreeMap<usize, Float64>, prev: &BTreeMap<usize, Float64>) -> (r: Vec<
    (usize, Comparison),
>)
    ensures
        pairs_up(now@, prev@, r@),
{
    broadcast use vstd::std_specs::btree::group_btree_axioms;

    let mut out: Vec<(usize, Comparison)> = Vec::new();
    let entries = now.iter();
    let ghost all = vstd::std_specs::iter::IteratorSpec::remaining(&entries);
    let ghost keys = all.map_values(|kv: (&usize, &Float64)| *kv.0);
    for entry in it: entries
        invariant
            it.seq() == all,
            all == vstd::std_specs::iter::IteratorSpec::remaining(
                &vstd::std_specs::btree::spec_btree_map_iter(now),
            ),
            out@.len() == it.index(),
            forall|i: int|
                0 <= i < out@.len() ==> (#[trigger] out@[i]) == pair_at(now@, prev@, *all[i].0)
                    && now@.contains_key(*all[i].0),
    {
        let k = *entry.0;
        assert(now@.contains_key(*all[it.index()].0));
        out.push((k, Comparison { now: *entry.1, prev: value_or_zero(prev, k) }));
    }
    proof {
        assert(out@.len() == all.len());
        assert(vstd::std_specs::btree::increasing_seq(keys));
        assert forall|i: int, j: int| 0 <= i < j < out@.len() implies (#[trigger] out@[i]).0 < (
        #[trigger] out@[j]).0 by {
            assert(keys[i] == out@[i].0);
            assert(keys[j] == out@[j].0);
            assert(vstd::std_specs::cmp::OrdSpec::cmp_spec(&keys[i], &keys[j]) is Less);
        }
        assert forall|k: usize| #[trigger] now@.contains_key(k) implies out@.contains(
            pair_at(now@, prev@, k),
        ) by {
            let i = choose|i: int| 0 <= i < all.len() && all[i] == (&k, &now@[k]);
            assert(out@[i] == pair_at(now@, prev@, k));
        }
    }
    out
}

/// Every value is a finite number.
pub open spec fn all_finite(m: Map<usize, Float64>) -> bool {
    forall|k: usize| #[trigger] m.contains_key(k) ==> m[k].is_finite()
}

/// Means that another run can be compared with: all of them are finite numbers.
pub open spec fn sound_baseline(m: AggregateMetrics) -> bool {
    all_finite(m.recall_at_k@) && m.mrr.is_finite() && all_finite(m.ndcg_at_k@)
}

/// What is compared between the means of two runs: the recall and the gain at
/// each depth and the mean reciprocal rank, as far as they are finite now. With
/// means before that are not all finite nothing is compared.
pub open spec fn compared(now: AggregateMetrics, prev: AggregateMetrics, c: Comparison) -> bool {
    &&& sound_baseline(prev)
    &&& c.now.is_finite()
    &&& c.prev.is_finite()
    &&& {
        ||| c == (Comparison { now: now.mrr, prev: prev.mrr })
        ||| exists|k: usize| #[trigger]
            now.recall_at_k@.contains_key(k) && c == pair_at(
                now.recall_at_k@,
                prev.recall_at_k@,
                k,
            ).1
        ||| exists|k: usize| #[trigger]
            now.ndcg_at_k@.contains_key(k) && c == pair_at(
                now.ndcg_at_k@,
                prev.ndcg_at_k@,
                k,
            ).1
    }
}

/// The values at some depth, as far as they are finite.
pub open spec fn compared_in(
    now: Map<usize, Float64>,
    prev: Map<usize, Float64>,
    c: Comparison,
) -> bool {
    c.now.is_finite() && c.prev.is_finite() && exists|k: usize| #[trigger]
        now.contains_key(k) && c == pair_at(now, prev, k).1
}

fn push_compared(
    out: &mut Vec<Comparison>,
    now: &BTreeMap<usize, Float64>,
    prev: &BTreeMap<usize, Float64>,
)
    ensures
        forall|c: Comparison| #[trigger]
            final(out)@.contains(c) <==> old(out)@.contains(c) || compared_in(now@, prev@, c),
{
    let pairs = paired(now, prev);
    let ghost start = out@;
    let mut i: usize = 0;
    while i < pairs.len()
        invariant
            i <= pairs@.len(),
            pairs_up(now@, prev@, pairs@),
            start == old(out)@,
            forall|c: Comparison| #[trigger]
                out@.contains(c) <==> start.contains(c) || (c.now.is_finite()
                    && c.prev.is_finite() && exists|n: int|
                    0 <= n < i && (#[trigger] pairs@[n]).1 == c),
        decreases pairs@.len() - i,
    {
        let c = pairs[i].1;
        let ghost before = out@;
        if c.now.finite() && c.prev.finite() {
            out.push(c);
        }
        proof {
            assert forall|d: Comparison| #[trigger] out@.contains(d) <==> start.contains(d) || (
            d.now.is_finite() && d.prev.is_finite() && exists|n: int|
                0 <= n < i + 1 && (#[trigger] pairs@[n]).1 == d) by {
                if out@.contains(d) {
                    let n = choose|n: int| 0 <= n < out@.len() && out@[n] == d;
                    if n < before.len() {
                        assert(before[n] == d);
                        assert(before.contains(d));
                    } else {
                        assert(pairs@[i as int].1 == d);
                    }
                }
                if start.contains(d) || (d.now.is_finite() && d.prev.is_finite() && exists|n: int|
                    0 <= n < i + 1 && (#[trigger] pairs@[n]).1 == d) {
                    if before.contains(d) {
                        let n = choose|n: int| 0 <= n < before.len() && before[n] == d;
                        assert(out@[n] == d);
                    } else {
                        let n = choose|n: int| 0 <= n < i + 1 && (#[trigger] pairs@[n]).1 == d;
                        assert(n == i);
                        assert(out@.last() == d);
                    }
                }
            }
        }
        i += 1;
    }
    proof {
        assert forall|c: Comparison| #[trigger] out@.contains(c) <==> start.contains(c)
            || compared_in(now@, prev@, c) by {
            if out@.contains(c) && !start.contains(c) {
                let n = choose|n: int| 0 <= n < pairs@.len() && (#[trigger] pairs@[n]).1 == c;
                assert(now@.contains_key(pairs@[n].0));
            }
            if compared_in(now@, prev@, c) {
                let k = choose|k: usize| #[trigger]
                    now@.contains_key(k) && c == pair_at(now@, prev@, k).1;
                let n = choose|n: int|
                    0 <= n < pairs@.len() && pairs@[n] == pair_at(now@, prev@, k);
                assert(pairs@[n].1 == c);
            }
        }
    }
}

fn finite_values(m: &BTreeMap<usize, Float64>) -> (r: bool)
    ensures
        r == all_finite(m@),
{
    let pairs = paired(m, m);
    let mut i: usize = 0;
    while i < pairs.len()
        invariant
            i <= pairs@.len(),
            pairs_up(m@, m@, pairs@),
            forall|n: int| 0 <= n < i ==> (#[trigger] pairs@[n]).1.now.is_finite(),
        decreases pairs@.len() - i,
    {
        if !pairs[i].1.now.finite() {
            assert(m@.contains_key(pairs@[i as int].0));
            return false;
        }
        i += 1;
    }
    assert forall|k: usize| #[trigger] m@.contains_key(k) implies m@[k].is_finite() by {
        let n = choose|n: int| 0 <= n < pairs@.len() && pairs@[n] == pair_at(m@, m@, k);
        assert(pairs@[n].1.now.is_finite());
    }
    true
}

/// What is compared between the means of two runs: nothing where the means before
/// are not all finite.
pub fn comparisons(now: &AggregateMetrics, prev: &AggregateMetrics) -> (r: Vec<Comparison>)
    ensures
        forall|c: Comparison| #[trigger] r@.contains(c) <==> compared(*now, *prev, c),
{
    let mut out: Vec<Comparison> = Vec::new();
    if !prev.mrr.finite() || !finite_values(&prev.recall_at_k) || !finite_values(&prev.ndcg_at_k) {
        return out;
    }
    push_compared(&mut out, &now.recall_at_k, &prev.recall_at_k);
    let ghost recalls = out@;
    let mrr = Comparison { now: now.mrr, prev: prev.mrr };
    if mrr.now.finite() && mrr.prev.finite() {
        out.push(mrr);
    }
    let ghost before = out@;
    proof {
        assert forall|c: Comparison| #[trigger] before.contains(c) <==> recalls.contains(c) || (
        c == mrr && c.now.is_finite() && c.prev.is_finite()) by {
            if before.contains(c) {
                let n = choose|n: int| 0 <= n < before.len() && before[n] == c;
                if n < recalls.len() {
                    assert(recalls[n] == c);
                }
            }
            if recalls.contains(c) {
                let n = choose|n: int| 0 <= n < recalls.len() && recalls[n] == c;
                assert(before[n] == c);
            } else if c == mrr && c.now.is_finite() && c.prev.is_finite() {
                assert(before.last() == c);
            }
        }
    }
    push_compared(&mut out, &now.ndcg_at_k, &prev.ndcg_at_k);
    assert forall|c: Comparison| #[trigger] out@.contains(c) <==> compared(*now, *prev, c) by {
        assert(out@.contains(c) <==> before.contains(c) || compared_in(
            now.ndcg_at_k@,
            prev.ndcg_at_k@,
            c,
        ));
        assert(before.contains(c) <==> recalls.contains(c) || (c == mrr && c.now.is_finite()
            && c.prev.is_finite()));
        assert(recalls.contains(c) <==> compared_in(now.recall_at_k@, prev.recall_at_k@, c));
    }
    out
}

/// Some value fell by more than the threshold.
pub open spec fn worse(drops: Seq<Float64>, threshold: Float64) -> bool {
    exists|i: int| 0 <= i < drops.len() && threshold.below(#[trigger] drops[i])
}

/// Whether a run is worse than the one before: some value fell by more than the
/// threshold. `drops` holds, for each comparison, the value before less the value
/// now.
pub fn is_regression(drops: &Vec<Float64>, threshold: Float64) -> (r: bool)
    ensures
        r == worse(drops@, threshold),
{
    let mut i: usize = 0;
    while i < drops.len()
        invariant
            i <= drops@.len(),
            forall|k: int| 0 <= k < i ==> !threshold.below(#[trigger] drops@[k]),
        decreases drops@.len() - i,
    {
        if threshold.less(drops[i]) {
            return true;
        }
        i += 1;
    }
    false
}

/// A run before with a value that is not finite is never a reason to call a run
/// worse, whatever else fell: nothing is compared with it. `compared_values` is what
/// `comparisons` returns and `drops` holds one drop for each.
pub proof fn an_unsound_baseline_shows_no_regression(
    now: AggregateMetrics,
    prev: AggregateMetrics,
    compared_values: Seq<Comparison>,
    drops: Seq<Float64>,
    threshold: Float64,
)
    requires
        !sound_baseline(prev),
        forall|c: Comparison| #[trigger]
            compared_values.contains(c) <==> compared(now, prev, c),
        drops.len() == compared_values.len(),
    ensures
        compared_values.len() == 0,
        !worse(drops, threshold),
{
    if compared_values.len() > 0 {
        assert(compared_values.contains(compared_values[0]));
    }
}

/// A run that is compared with itself shows no change: every value is compared
/// with itself.
pub proof fn no_change_against_itself(m: AggregateMetrics, c: Comparison)
    requires
        compared(m, m, c),
    ensures
        c.now == c.prev,
{
}

/// The depths of a metric are exactly those that were asked for.
pub open spec fn keyed_by(m: Map<usize, Float64>, ks: Seq<usize>) -> bool {
    forall|k: usize| #[trigger] m.contains_key(k) <==> ks.contains(k)
}

/// The metrics of a query are there for exactly these depths.
pub open spec fn measured_at(m: QueryMetrics, ks: Seq<usize>) -> bool {
    keyed_by(m.recall_at_k@, ks) && keyed_by(m.ndcg_at_k@, ks)
}

/// How many of the queries expect something.
pub open spec fn expecting(qs: Seq<QueryResult>) -> nat
    decreases qs.len(),
{
    if qs.len() == 0 {
        0
    } else {
        expecting(qs.drop_last()) + (if qs.last().expected@.len() == 0 {
            0nat
        } else {
            1
        })
    }
}

/// The means are those of the queries that expect something, for exactly these
/// depths. Without such a query there are none.
pub open spec fn averaged_over(a: AggregateMetrics, qs: Seq<QueryResult>, ks: Seq<usize>) -> bool {
    &&& a.query_count == expecting(qs)
    &&& if expecting(qs) > 0 {
        keyed_by(a.recall_at_k@, ks) && keyed_by(a.ndcg_at_k@, ks)
    } else {
        &&& a.recall_at_k@ == Map::<usize, Float64>::empty()
        &&& a.mrr == Float64::zero()
        &&& a.ndcg_at_k@ == Map::<usize, Float64>::empty()
    }
}

/// The values of the queries that expect something, in order.
pub open spec fn counted_values(
    qs: Seq<QueryResult>,
    value: spec_fn(QueryResult) -> Float64,
) -> Seq<Float64>
    decreases qs.len(),
{
    if qs.len() == 0 {
        Seq::empty()
    } else {
        let before = counted_values(qs.drop_last(), value);
        if qs.last().expected@.len() == 0 {
            before
        } else {
            before.push(value(qs.last()))
        }
    }
}

/// A recall of a query.
pub open spec fn recall_value(k: usize) -> spec_fn(QueryResult) -> Float64 {
    |q: QueryResult| value_at(q.metrics.recall_at_k@, k)
}

/// A gain of a query.
pub open spec fn ndcg_value(k: usize) -> spec_fn(QueryResult) -> Float64 {
    |q: QueryResult| value_at(q.metrics.ndcg_at_k@, k)
}

/// The reciprocal rank of a query.
pub open spec fn rank_value() -> spec_fn(QueryResult) -> Float64 {
    |q: QueryResult| q.metrics.reciprocal_rank
}

fn counted_recalls(qs: &[QueryResult], k: usize) -> (r: Vec<Float64>)
    ensures
        r@ == counted_values(qs@, recall_value(k)),
{
    let mut out: Vec<Float64> = Vec::new();
    let mut i: usize = 0;
    assert(qs@.take(0) =~= Seq::empty());
    while i < qs.len()
        invariant
            i <= qs@.len(),
            out@ == counted_values(qs@.take(i as int), recall_value(k)),
        decreases qs@.len() - i,
    {
        assert(qs@.take(i + 1).drop_last() =~= qs@.take(i as int));
        if qs[i].expected.len() != 0 {
            out.push(value_or_zero(&qs[i].metrics.recall_at_k, k));
        }
        i += 1;
    }
    assert(qs@.take(i as int) =~= qs@);
    out
}

fn counted_gains(qs: &[QueryResult], k: usize) -> (r: Vec<Float64>)
    ensures
        r@ == counted_values(qs@, ndcg_value(k)),
{
    let mut out: Vec<Float64> = Vec::new();
    let mut i: usize = 0;
    assert(qs@.take(0) =~= Seq::empty());
    while i < qs.len()
        invariant
            i <= qs@.len(),
            out@ == counted_values(qs@.take(i as int), ndcg_value(k)),
        decreases qs@.len() - i,
    {
        assert(qs@.take(i + 1).drop_last() =~= qs@.take(i as int));
        if qs[i].expected.len() != 0 {
            out.push(value_or_zero(&qs[i].metrics.ndcg_at_k, k));
        }
        i += 1;
    }
    assert(qs@.take(i as int) =~= qs@);
    out
}

fn counted_ranks(qs: &[QueryResult]) -> (r: Vec<Float64>)
    ensures
        r@ == counted_values(qs@, rank_value()),
{
    let mut out: Vec<Float64> = Vec::new();
    let mut i: usize = 0;
    assert(qs@.take(0) =~= Seq::empty());
    while i < qs.len()
        invariant
            i <= qs@.len(),
            out@ == counted_values(qs@.take(i as int), rank_value()),
        decreases qs@.len() - i,
    {
        assert(qs@.take(i + 1).drop_last() =~= qs@.take(i as int));
        if qs[i].expected.len() != 0 {
            out.push(qs[i].metrics.reciprocal_rank);
        }
        i += 1;
    }
    assert(qs@.take(i as int) =~= qs@);
    out
}

/// What the means are taken of. The lists of each depth and of the reciprocal
/// ranks are equally long.
#[derive(Debug, Clone)]
pub struct AggregateInputs {
    pub recall_at_k: Vec<(usize, Vec<Float64>)>,
    pub reciprocal_ranks: Vec<Float64>,
    pub ndcg_at_k: Vec<(usize, Vec<Float64>)>,
}

proof fn counted_values_agree(
    qs: Seq<QueryResult>,
    f: spec_fn(QueryResult) -> Float64,
    g: spec_fn(QueryResult) -> Float64,
)
    ensures
        counted_values(qs, f).len() == counted_values(qs, g).len() == expecting(qs) <= qs.len(),
    decreases qs.len(),
{
    if qs.len() > 0 {
        counted_values_agree(qs.drop_last(), f, g);
    }
}

/// `a` is what the means over the queries are taken of.
pub open spec fn inputs_of(
    per_query: Seq<QueryResult>,
    ks: Seq<usize>,
    a: AggregateInputs,
) -> bool {
    &&& a.reciprocal_ranks@ == counted_values(per_query, rank_value())
    &&& a.recall_at_k@.len() == ks.len()
    &&& a.ndcg_at_k@.len() == ks.len()
    &&& forall|i: int|
        0 <= i < ks.len() ==> (#[trigger] a.recall_at_k@[i]).0 == ks[i] && a.recall_at_k@[i].1@
            == counted_values(per_query, recall_value(ks[i]))
    &&& forall|i: int|
        0 <= i < ks.len() ==> (#[trigger] a.ndcg_at_k@[i]).0 == ks[i] && a.ndcg_at_k@[i].1@
            == counted_values(per_query, ndcg_value(ks[i]))
}

/// What the means over the queries are taken of: the queries that expect nothing
/// are left out. `None` where nothing is left.
pub fn aggregate_metrics(per_query: &[QueryResult], k_values: &[usize]) -> (r: Option<
    AggregateInputs,
>)
    ensures
        r is None <==> expecting(per_query@) == 0,
        r matches Some(a) ==> inputs_of(per_query@, k_values@, a),
        r matches Some(a) ==> {
            &&& a.reciprocal_ranks@ == counted_values(per_query@, rank_value())
            &&& a.reciprocal_ranks@.len() == expecting(per_query@)
            &&& a.recall_at_k@.len() == k_values@.len()
            &&& a.ndcg_at_k@.len() == k_values@.len()
            &&& forall|i: int|
                0 <= i < k_values@.len() ==> (#[trigger] a.recall_at_k@[i]).0 == k_values@[i]
                    && a.recall_at_k@[i].1@ == counted_values(
                    per_query@,
                    recall_value(k_values@[i]),
                ) && a.recall_at_k@[i].1@.len() == a.reciprocal_ranks@.len()
            &&& forall|i: int|
                0 <= i < k_values@.len() ==> (#[trigger] a.ndcg_at_k@[i]).0 == k_values@[i]
                    && a.ndcg_at_k@[i].1@ == counted_values(per_query@, ndcg_value(k_values@[i]))
                    && a.ndcg_at_k@[i].1@.len() == a.reciprocal_ranks@.len()
        },
{
    let ranks = counted_ranks(per_query);
    proof {
        counted_values_agree(per_query@, rank_value(), rank_value());
    }
    if ranks.len() == 0 {
        return None;
    }
    let mut recalls: Vec<(usize, Vec<Float64>)> = Vec::new();
    let mut gains: Vec<(usize, Vec<Float64>)> = Vec::new();
    let mut i: usize = 0;
    while i < k_values.len()
        invariant
            i <= k_values@.len(),
            ranks@ == counted_values(per_query@, rank_value()),
            recalls@.len() == i,
            gains@.len() == i,
            forall|n: int|
                0 <= n < i ==> (#[trigger] recalls@[n]).0 == k_values@[n] && recalls@[n].1@
                    == counted_values(per_query@, recall_value(k_values@[n]))
                    && recalls@[n].1@.len() == ranks@.len(),
            forall|n: int|
                0 <= n < i ==> (#[trigger] gains@[n]).0 == k_values@[n] && gains@[n].1@
                    == counted_values(per_query@, ndcg_value(k_values@[n]))
                    && gains@[n].1@.len() == ranks@.len(),
        decreases k_values@.len() - i,
    {
        let k = k_values[i];
        proof {
            counted_values_agree(per_query@, rank_value(), recall_value(k));
            counted_values_agree(per_query@, rank_value(), ndcg_value(k));
        }
        recalls.push((k, counted_recalls(per_query, k)));
        gains.push((k, counted_gains(per_query, k)));
        i += 1;
    }
    Some(AggregateInputs { recall_at_k: recalls, reciprocal_ranks: ranks, ndcg_at_k: gains })
}

/// The past runs, the latest first.
#[derive(Debug)]
pub struct History {
    pub runs: VecDeque<EvalRun>,
}

impl Default for History {
    fn default() -> (r: Self)
        ensures
            r.runs@.len() == 0,
    {
        History { runs: VecDeque::new() }
    }
}

/// The first `n` of a sequence.
pub open spec fn at_most<A>(s: Seq<A>, n: nat) -> Seq<A> {
    if n < s.len() {
        s.take(n as int)
    } else {
        s
    }
}

impl History {
    /// Puts a run in front and forgets the oldest ones beyond `size`.
    pub fn push_front(&mut self, run: EvalRun, size: usize)
        ensures
            final(self).runs@ == at_most(seq![run] + old(self).runs@, size as nat),
    {
        self.runs.push_front(run);
        let ghost all = self.runs@;
        while self.runs.len() > size
            invariant
                self.runs@.len() <= all.len(),
                self.runs@ == all.take(self.runs@.len() as int),
                all.len() >= size ==> self.runs@.len() >= size,
                all.len() < size ==> self.runs@ == all,
            decreases self.runs@.len(),
        {
            let ghost before = self.runs@;
            let _ = self.runs.pop_back();
            assert(self.runs@ =~= all.take(before.len() - 1));
        }
    }

    /// The latest run.
    pub fn previous(&self) -> (r: Option<&EvalRun>)
        ensures
            r == (if self.runs@.len() == 0 {
                None
            } else {
                Some(&self.runs@[0])
            }),
    {
        if self.runs.len() == 0 {
            None
        } else {
            Some(&self.runs[0])
        }
    }

    /// The latest run, where it compares with `now`.
    pub fn previous_compatible(&self, now: &EvalRun) -> (r: Option<&EvalRun>)
        ensures
            r is Some <==> latest_compatible(self.runs@, *now) is Some,
            r is Some ==> *r->0 == latest_compatible(self.runs@, *now)->0,
            r == (if self.runs@.len() > 0 && self.runs@[0].fingerprint@.compatible(
                now.fingerprint@,
            ) {
                Some(&self.runs@[0])
            } else {
                None
            }),
    {
        match self.previous() {
            Some(p) => if p.fingerprint.same(&now.fingerprint) {
                Some(p)
            } else {
                None
            },
            None => None,
        }
    }
}

/// What was pushed last comes back first, and the runs that are kept are the
/// latest ones in their order.
pub proof fn the_latest_runs_are_kept(run: EvalRun, runs: Seq<EvalRun>, size: nat)
    ensures
        at_most(seq![run] + runs, size).len() <= size,
        size > 0 ==> at_most(seq![run] + runs, size)[0] == run,
        forall|i: int|
            0 < i < at_most(seq![run] + runs, size).len() ==> #[trigger] at_most(
                seq![run] + runs,
                size,
            )[i] == runs[i - 1],
        runs.len() < size ==> at_most(seq![run] + runs, size).len() == runs.len() + 1,
{
}

/// Whether the index changed between two runs; `None` where one of them does not
/// say.
pub open spec fn corpus_change(run: EvalRun, previous: Option<&EvalRun>) -> Option<bool> {
    match (run.corpus, previous) {
        (Some(now), Some(p)) => match p.corpus {
            Some(before) => Some(now@ != before@),
            None => None,
        },
        _ => None,
    }
}

/// The latest run, where it compares with `now`.
pub open spec fn latest_compatible(runs: Seq<EvalRun>, now: EvalRun) -> Option<EvalRun> {
    if runs.len() > 0 && runs[0].fingerprint@.compatible(now.fingerprint@) {
        Some(runs[0])
    } else {
        None
    }
}

/// Whether the index changed between two runs; `None` where one of them does not
/// say.
pub fn corpus_changed(run: &EvalRun, previous: Option<&EvalRun>) -> (r: Option<bool>)
    ensures
        r == corpus_change(*run, previous),
        r == (match (run.corpus, previous) {
            (Some(now), Some(p)) => match p.corpus {
                Some(before) => Some(now@ != before@),
                None => None,
            },
            _ => None,
        }),
{
    match (&run.corpus, previous) {
        (Some(now), Some(p)) => match &p.corpus {
            Some(before) => Some(!now.same(before)),
            None => None,
        },
        _ => None,
    }
}

/// What changed between two runs that compare, by depth.
#[derive(Debug, Clone)]
pub struct DiffInputs {
    pub recall_at_k: Vec<(usize, Comparison)>,
    pub ndcg_at_k: Vec<(usize, Comparison)>,
    pub mrr: Comparison,
}

/// Whether the numbers of two runs may be set against each other.
pub open spec fn diff_enabled(run: EvalRun, previous: Option<&EvalRun>) -> bool {
    previous matches Some(p) && p.fingerprint@.compatible(run.fingerprint@)
}

pub fn is_diff_enabled(run: &EvalRun, previous: Option<&EvalRun>) -> (r: bool)
    ensures
        r == diff_enabled(*run, previous),
{
    match previous {
        Some(p) => p.fingerprint.same(&run.fingerprint),
        None => false,
    }
}

/// What is reported as changed; `None` where the runs do not compare.
pub fn diff_inputs(run: &EvalRun, previous: Option<&EvalRun>) -> (r: Option<DiffInputs>)
    ensures
        r is Some <==> diff_enabled(*run, previous),
        r matches Some(d) ==> {
            &&& pairs_up(
                run.aggregate.recall_at_k@,
                previous->0.aggregate.recall_at_k@,
                d.recall_at_k@,
            )
            &&& pairs_up(
                run.aggregate.ndcg_at_k@,
                previous->0.aggregate.ndcg_at_k@,
                d.ndcg_at_k@,
            )
            &&& d.mrr == (Comparison {
                now: run.aggregate.mrr,
                prev: previous->0.aggregate.mrr,
            })
        },
{
    match previous {
        Some(p) => {
            if !p.fingerprint.same(&run.fingerprint) {
                return None;
            }
            Some(
                DiffInputs {
                    recall_at_k: paired(&run.aggregate.recall_at_k, &p.aggregate.recall_at_k),
                    ndcg_at_k: paired(&run.aggregate.ndcg_at_k, &p.aggregate.ndcg_at_k),
                    mrr: Comparison { now: run.aggregate.mrr, prev: p.aggregate.mrr },
                },
            )
        },
        None => None,
    }
}

} // verus!
