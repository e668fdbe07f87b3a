//! An evaluation run: the queries with known answers, how deep to retrieve, and
//! what is recorded of each query.

use crate::corpus;
use crate::corpus::{corpus_digest, CorpusSnapshot};
use crate::db::SearchHit;
use crate::fingerprint;
use crate::fingerprint::ConfigFingerprint;
use crate::history;
use crate::history::{AggregateMetrics, EvalRun, QueryMetrics, QueryResult};
use crate::metrics::{ExpectedHit, HitRecord};
use crate::path::PathName;
use crate::text;
use crate::text::{copy_option, to_text};
use crate::time::Timestamp;
use vstd::prelude::*;
use vstd::string::StrSliceExecFns;

verus! {

/// The queries with known answers.
#[derive(Debug)]
pub struct GoldenSet {
    pub defaults: Option<GoldenDefaults>,
    pub queries: Vec<GoldenQuery>,
}

#[derive(Debug, Clone, Copy, PartialEq, Eq, Structural)]
pub struct GoldenDefaults {
    pub limit: Option<u32>,
    pub rerank: Option<bool>,
}

/// A query with the hits that it should bring.
#[derive(Debug)]
pub struct GoldenQuery {
    pub id: Option<String>,
    pub query: String,
    pub expected: Vec<ExpectedHit>,
    pub tags: Option<Vec<String>>,
}

impl GoldenSet {
    /// The SHA-256 of a golden file.
    pub fn hash_bytes(bytes: &[u8]) -> (r: String)
        ensures
            r@ == corpus::sha256_hex(bytes@),
    {
        corpus::sha256(bytes)
    }
}

/// The most hits that one search returns.
pub const SEARCH_LIMIT_MAX: u32 = 1000;

/// The number of hits that a search returns at most where `limit` are asked for.
pub open spec fn limit_bound(limit: u32) -> u32 {
    if limit < SEARCH_LIMIT_MAX {
        limit
    } else {
        SEARCH_LIMIT_MAX
    }
}

/// The number of hits that a search returns at most where `limit` are asked for.
pub fn clamp_search_limit(limit: u32) -> (r: u32)
    ensures
        r == limit_bound(limit),
        r == (if limit < SEARCH_LIMIT_MAX {
            limit
        } else {
            SEARCH_LIMIT_MAX
        }),
{
    if limit < SEARCH_LIMIT_MAX {
        limit
    } else {
        SEARCH_LIMIT_MAX
    }
}

/// A depth that no search exceeds.
pub open spec fn capped(k: usize) -> usize {
    if k < SEARCH_LIMIT_MAX {
        k
    } else {
        SEARCH_LIMIT_MAX as usize
    }
}

/// Strictly increasing.
pub open spec fn increasing(s: Seq<usize>) -> bool {
    forall|i: int, j: int| 0 <= i < j < s.len() ==> s[i] < s[j]
}

/// `r` holds the depths `ks`, capped, each once and in order.
pub open spec fn normal_depths(ks: Seq<usize>, r: Seq<usize>) -> bool {
    &&& increasing(r)
    &&& forall|x: usize| #[trigger]
        r.contains(x) <==> exists|i: int| 0 <= i < ks.len() && x == capped(#[trigger] ks[i])
}

fn insert_depth(v: &mut Vec<usize>, k: usize)
    requires
        increasing(old(v)@),
    ensures
        increasing(final(v)@),
        forall|x: usize| #[trigger] final(v)@.contains(x) <==> old(v)@.contains(x) || x == k,
{
    let mut at: usize = 0;
    while at < v.len() && v[at] < k
        invariant
            at <= v@.len(),
            v@ == old(v)@,
            forall|i: int| 0 <= i < at ==> v@[i] < k,
        decreases v@.len() - at,
    {
        at += 1;
    }
    if at < v.len() && v[at] == k {
        assert(v@[at as int] == k);
        return ;
    }
    v.insert(at, k);
    proof {
        assert forall|x: usize| #[trigger] v@.contains(x) <==> old(v)@.contains(x) || x == k by {
            if v@.contains(x) {
                let i = choose|i: int| 0 <= i < v@.len() && v@[i] == x;
                if i < at {
                    assert(old(v)@[i] == x);
                } else if i > at {
                    assert(old(v)@[i - 1] == x);
                }
            }
            if old(v)@.contains(x) {
                let i = choose|i: int| 0 <= i < old(v)@.len() && old(v)@[i] == x;
                if i < at {
                    assert(v@[i] == x);
                } else {
                    assert(v@[i + 1] == x);
                }
            }
            assert(v@[at as int] == k);
        }
    }
}

/// The limit and the depths that an evaluation really uses: what no search exceeds,
/// and each depth once. A depth above `limit` stays: more is then retrieved.
pub fn normalize_eval_limit_and_k(limit: u32, k_values: &[usize]) -> (r: (u32, Vec<usize>))
    ensures
        r.0 == (if limit < SEARCH_LIMIT_MAX {
            limit
        } else {
            SEARCH_LIMIT_MAX
        }),
        normal_depths(k_values@, r.1@),
{
    let mut out: Vec<usize> = Vec::new();
    let mut i: usize = 0;
    while i < k_values.len()
        invariant
            i <= k_values@.len(),
            increasing(out@),
            forall|x: usize| #[trigger]
                out@.contains(x) <==> exists|n: int|
                    0 <= n < i && x == capped(#[trigger] k_values@[n]),
        decreases k_values@.len() - i,
    {
        let cap = SEARCH_LIMIT_MAX as usize;
        let k = if k_values[i] < cap {
            k_values[i]
        } else {
            cap
        };
        let ghost before = out@;
        insert_depth(&mut out, k);
        proof {
            assert(k == capped(k_values@[i as int]));
            assert forall|x: usize| #[trigger] out@.contains(x) <==> exists|n: int|
                0 <= n < i + 1 && x == capped(#[trigger] k_values@[n]) by {
                assert(out@.contains(x) <==> before.contains(x) || x == k);
                if exists|n: int| 0 <= n < i + 1 && x == capped(#[trigger] k_values@[n]) {
                    let n = choose|n: int| 0 <= n < i + 1 && x == capped(#[trigger] k_values@[n]);
                    if n < i {
                        assert(before.contains(x));
                    }
                }
            }
        }
        i += 1;
    }
    (clamp_search_limit(limit), out)
}

proof fn increasing_determined(a: Seq<usize>, b: Seq<usize>)
    requires
        increasing(a),
        increasing(b),
        forall|x: usize| a.contains(x) <==> b.contains(x),
    ensures
        a == b,
    decreases a.len(),
{
    if a.len() == 0 {
        if b.len() > 0 {
            assert(b.contains(b[0]));
        }
        assert(a =~= b);
    } else {
        assert(a.contains(a.last()));
        assert(b.len() > 0);
        assert(b.contains(b.last()));
        assert(a.contains(b.last()));
        assert(b.contains(a.last()));
        let i = choose|i: int| 0 <= i < a.len() && a[i] == b.last();
        let j = choose|j: int| 0 <= j < b.len() && b[j] == a.last();
        assert(a.last() == b.last());
        let c = a.drop_last();
        let d = b.drop_last();
        assert forall|x: usize| c.contains(x) <==> d.contains(x) by {
            if c.contains(x) {
                let n = choose|n: int| 0 <= n < c.len() && c[n] == x;
                assert(a[n] == x);
                assert(a.contains(x));
                assert(b.contains(x));
                let m = choose|m: int| 0 <= m < b.len() && b[m] == x;
                assert(m < d.len());
                assert(d[m] == x);
            }
            if d.contains(x) {
                let n = choose|n: int| 0 <= n < d.len() && d[n] == x;
                assert(b[n] == x);
                assert(b.contains(x));
                assert(a.contains(x));
                let m = choose|m: int| 0 <= m < a.len() && a[m] == x;
                assert(m < c.len());
                assert(c[m] == x);
            }
        }
        increasing_determined(c, d);
        assert(a =~= c.push(a.last()));
        assert(b =~= d.push(b.last()));
    }
}

/// The depths of a list, none above the cap.
pub open spec fn capped_depths(ks: Seq<usize>) -> Set<usize> {
    ks.map_values(|k: usize| capped(k)).to_set()
}

proof fn lemma_normal_depths_hold(ks: Seq<usize>, r: Seq<usize>, x: usize)
    requires
        normal_depths(ks, r),
    ensures
        r.contains(x) <==> capped_depths(ks).contains(x),
{
    let all = ks.map_values(|k: usize| capped(k));
    if r.contains(x) {
        let i = choose|i: int| 0 <= i < ks.len() && x == capped(#[trigger] ks[i]);
        assert(all[i] == x);
    }
    if all.contains(x) {
        let i = choose|i: int| 0 <= i < all.len() && all[i] == x;
        assert(x == capped(ks[i]));
    }
}

/// Lists of depths that ask for the same hits have the same normal form: their
/// order, repetitions and what lies above the cap play no part.
pub proof fn equivalent_depths_normalize_alike(
    a: Seq<usize>,
    b: Seq<usize>,
    ra: Seq<usize>,
    rb: Seq<usize>,
)
    requires
        normal_depths(a, ra),
        normal_depths(b, rb),
        capped_depths(a) == capped_depths(b),
    ensures
        ra == rb,
{
    assert forall|x: usize| ra.contains(x) <==> rb.contains(x) by {
        lemma_normal_depths_hold(a, ra, x);
        lemma_normal_depths_hold(b, rb, x);
    }
    increasing_determined(ra, rb);
}

/// The largest depth, if there is one.
pub open spec fn largest(ks: Seq<usize>) -> Option<usize>
    decreases ks.len(),
{
    if ks.len() == 0 {
        None
    } else {
        match largest(ks.drop_last()) {
            Some(m) => if m > ks.last() {
                Some(m)
            } else {
                Some(ks.last())
            },
            None => Some(ks.last()),
        }
    }
}

/// The largest depth, if there is one.
pub fn largest_depth(ks: &Vec<usize>) -> (r: Option<usize>)
    ensures
        r == largest(ks@),
{
    let mut best: Option<usize> = None;
    let mut i: usize = 0;
    assert(ks@.take(0) =~= Seq::empty());
    while i < ks.len()
        invariant
            i <= ks@.len(),
            best == largest(ks@.take(i as int)),
        decreases ks@.len() - i,
    {
        assert(ks@.take(i + 1).drop_last() =~= ks@.take(i as int));
        best = match best {
            Some(m) => if m > ks[i] {
                Some(m)
            } else {
                Some(ks[i])
            },
            None => Some(ks[i]),
        };
        i += 1;
    }
    assert(ks@.take(i as int) =~= ks@);
    best
}

/// How many hits are retrieved for each query.
pub open spec fn depth_for(limit: u32, ks: Seq<usize>) -> usize {
    let deepest = match largest(ks) {
        Some(m) => m,
        None => 10,
    };
    if deepest > limit {
        deepest
    } else {
        limit as usize
    }
}

/// How many hits are retrieved for each query: the limit, or the largest depth
/// where that is more. Without depths at least 10.
pub fn retrieval_depth(limit: u32, k_values: &Vec<usize>) -> (r: usize)
    ensures
        r == depth_for(limit, k_values@),
        ({
            let deepest = match largest(k_values@) {
                Some(m) => m,
                None => 10,
            };
            r == (if deepest > limit {
                deepest
            } else {
                limit as usize
            })
        }),
{
    let deepest: usize = match largest_depth(k_values) {
        Some(m) => m,
        None => 10,
    };
    if deepest > limit as usize {
        deepest
    } else {
        limit as usize
    }
}

/// The file that holds the history of a knowledge base.
pub fn default_history_path(kb_path: &PathName) -> (r: PathName)
    ensures
        r@ == kb_path@.below(".kb-mcp-eval-history.json"@),
{
    kb_path.below(".kb-mcp-eval-history.json")
}

/// The name of a query in a report: its id, or its first 32 characters.
pub open spec fn name_of(q: GoldenQuery) -> Seq<char> {
    match q.id {
        Some(id) => id@,
        None => if q.query@.len() <= 32 {
            q.query@
        } else {
            q.query@.take(32)
        },
    }
}

/// The name of a query in a report.
pub fn query_id(q: &GoldenQuery) -> (r: String)
    ensures
        r@ == name_of(*q),
{
    match &q.id {
        Some(id) => to_text(id.as_str()),
        None => {
            if q.query.as_str().unicode_len() <= 32 {
                to_text(q.query.as_str())
            } else {
                let head = q.query.as_str().substring_char(0, 32);
                assert(head@ =~= q.query@.take(32));
                to_text(head)
            }
        },
    }
}

/// An expected hit as characters.
pub open spec fn expected_text(e: ExpectedHit) -> (Seq<char>, Option<Seq<char>>) {
    (e.path@, text::option_text(e.heading))
}

/// The expected hits of a list as characters.
pub open spec fn expected_texts(v: Seq<ExpectedHit>) -> Seq<(Seq<char>, Option<Seq<char>>)> {
    Seq::new(v.len(), |i: int| expected_text(v[i]))
}

fn copy_expected(v: &Vec<ExpectedHit>) -> (r: Vec<ExpectedHit>)
    ensures
        expected_texts(r@) == expected_texts(v@),
{
    let mut out: Vec<ExpectedHit> = Vec::new();
    let mut i: usize = 0;
    while i < v.len()
        invariant
            i <= v@.len(),
            out@.len() == i,
            forall|n: int|
                0 <= n < i ==> expected_text(#[trigger] out@[n]) == expected_text(v@[n]),
        decreases v@.len() - i,
    {
        out.push(
            ExpectedHit {
                path: to_text(v[i].path.as_str()),
                heading: copy_option(&v[i].heading),
            },
        );
        i += 1;
    }
    assert(expected_texts(out@) =~= expected_texts(v@));
    out
}

/// Ranks from 1 on.
pub open spec fn ranked(top: Seq<HitRecord>) -> bool {
    forall|j: int| 0 <= j < top.len() ==> (#[trigger] top[j]).rank == j + 1
}

/// What is recorded of the hits of a query.
pub fn hit_records(hits: &Vec<SearchHit>) -> (r: Vec<HitRecord>)
    ensures
        r@.len() == hits@.len(),
        ranked(r@),
        forall|i: int|
            0 <= i < hits@.len() ==> (#[trigger] r@[i]).path@ == hits@[i].path@
                && text::option_text(r@[i].heading) == text::option_text(hits@[i].heading)
                && r@[i].score == hits@[i].score,
{
    let mut out: Vec<HitRecord> = Vec::new();
    let total: usize = hits.len();
    let mut i: usize = 0;
    while i < total
        invariant
            i <= total == hits@.len(),
            out@.len() == i,
            ranked(out@),
            forall|n: int|
                0 <= n < i ==> (#[trigger] out@[n]).path@ == hits@[n].path@ && text::option_text(
                    out@[n].heading,
                ) == text::option_text(hits@[n].heading) && out@[n].score == hits@[n].score,
        decreases total - i,
    {
        out.push(
            HitRecord {
                rank: i + 1,
                path: to_text(hits[i].path.as_str()),
                heading: copy_option(&hits[i].heading),
                score: hits[i].score,
            },
        );
        i += 1;
    }
    out
}

/// `r` is recorded for `q`.
pub open spec fn recorded(q: GoldenQuery, r: QueryResult) -> bool {
    &&& r.id@ == name_of(q)
    &&& r.query@ == q.query@
    &&& expected_texts(r.expected@) == expected_texts(q.expected@)
    &&& ranked(r.top_k@)
}

/// An evaluation run under way: the queries are searched one after the other.
pub struct EvalSession {
    pub queries: Vec<GoldenQuery>,
    pub limit: u32,
    pub k_values: Vec<usize>,
    pub results: Vec<QueryResult>,
}

impl EvalSession {
    /// The results are those of the first queries, in order, each measured at the
    /// depths of the run.
    pub open spec fn wf(&self) -> bool {
        &&& self.results@.len() <= self.queries@.len()
        &&& forall|i: int|
            0 <= i < self.results@.len() ==> recorded(
                self.queries@[i],
                #[trigger] self.results@[i],
            ) && history::measured_at(self.results@[i].metrics, self.k_values@)
    }

    /// Every query has its result.
    pub open spec fn done(&self) -> bool {
        self.results@.len() == self.queries@.len()
    }

    /// Starts a run.
    pub fn start(golden: GoldenSet, limit: u32, k_values: &[usize]) -> (r: Self)
        ensures
            r.wf(),
            r.queries == golden.queries,
            r.results@.len() == 0,
            r.limit == (if limit < SEARCH_LIMIT_MAX {
                limit
            } else {
                SEARCH_LIMIT_MAX
            }),
            normal_depths(k_values@, r.k_values@),
    {
        let (limit, k_values) = normalize_eval_limit_and_k(limit, k_values);
        EvalSession { queries: golden.queries, limit, k_values, results: Vec::new() }
    }

    /// The query to search next.
    pub fn next_query(&self) -> (r: Option<&GoldenQuery>)
        requires
            self.wf(),
        ensures
            r == (if self.done() {
                None
            } else {
                Some(&self.queries@[self.results@.len() as int])
            }),
    {
        if self.results.len() < self.queries.len() {
            Some(&self.queries[self.results.len()])
        } else {
            None
        }
    }

    /// Records the hits and the metrics of the query that is next.
    pub fn record(&mut self, top_k: Vec<HitRecord>, metrics: QueryMetrics)
        requires
            old(self).wf(),
            !old(self).done(),
            ranked(top_k@),
            history::measured_at(metrics, old(self).k_values@),
        ensures
            final(self).wf(),
            final(self).queries == old(self).queries,
            final(self).limit == old(self).limit,
            final(self).k_values == old(self).k_values,
            final(self).results@.len() == old(self).results@.len() + 1,
            final(self).results@.drop_last() == old(self).results@,
            final(self).results@.last().top_k == top_k,
            final(self).results@.last().metrics == metrics,
    {
        let q = &self.queries[self.results.len()];
        let result = QueryResult {
            id: query_id(q),
            query: to_text(q.query.as_str()),
            expected: copy_expected(&q.expected),
            top_k,
            metrics,
        };
        self.results.push(result);
        assert(self.results@.drop_last() =~= old(self).results@);
    }

    /// The run, once every query has its result, with the conditions that it was made
    /// under and the means over its results. `path_hashes` lists the documents of
    /// the index with the hashes of their contents.
    pub fn finish(
        self,
        timestamp: Timestamp,
        fingerprint: ConfigFingerprint,
        documents: u32,
        chunks: u32,
        path_hashes: &Vec<(String, String)>,
        aggregate: AggregateMetrics,
    ) -> (r: EvalRun)
        requires
            self.wf(),
            self.done(),
            fingerprint.limit == self.limit,
            fingerprint.k_values@ == self.k_values@,
            fingerprint.metric_version == fingerprint::METRIC_VERSION,
            history::averaged_over(aggregate, self.results@, self.k_values@),
        ensures
            r.timestamp == timestamp,
            r.fingerprint == fingerprint,
            r.fingerprint.limit == self.limit,
            r.fingerprint.k_values@ == self.k_values@,
            r.fingerprint.metric_version == fingerprint::METRIC_VERSION,
            r.corpus matches Some(c) && c.documents == documents && c.chunks == chunks && c.digest@
                == corpus::digest_of(path_hashes@),
            r.per_query == self.results,
            r.per_query@.len() == self.queries@.len(),
            forall|i: int|
                0 <= i < self.queries@.len() ==> recorded(
                    self.queries@[i],
                    #[trigger] r.per_query@[i],
                ) && history::measured_at(r.per_query@[i].metrics, r.fingerprint.k_values@),
            r.aggregate == aggregate,
            history::averaged_over(r.aggregate, r.per_query@, r.fingerprint.k_values@),
    {
        EvalRun {
            timestamp,
            fingerprint,
            corpus: Some(
                CorpusSnapshot { documents, chunks, digest: corpus_digest(path_hashes) },
            ),
            per_query: self.results,
            aggregate,
        }
    }
}

} // verus!
