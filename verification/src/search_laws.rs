//! What the search gives back, said of its lists, ids and scores alone.

use crate::db;
use crate::db::{CandidateRow, ResultText, SearchFilters};
use crate::float::Float32;
use crate::search;
use crate::sort;
use crate::tags;
use vstd::prelude::*;

verus! {

// ---------------------------------------------------------------------------
// Ranks
// ---------------------------------------------------------------------------

/// The ranks of a chunk in a list are exactly the positions at which it stands, in
/// increasing order.
pub proof fn ranks_are_the_positions(ids: Seq<i64>, id: i64)
    requires
        ids.len() <= usize::MAX,
    ensures
        forall|p: usize| #[trigger]
            search::places(ids, id).contains(p) <==> p < ids.len() && ids[p as int] == id,
        forall|i: int, j: int|
            0 <= i < j < search::places(ids, id).len() ==> (#[trigger] search::places(ids, id)[i])
                < (#[trigger] search::places(ids, id)[j]),
    decreases ids.len(),
{
    if ids.len() > 0 {
        let front = ids.drop_last();
        ranks_are_the_positions(front, id);
        let before = search::places(front, id);
        let all = search::places(ids, id);
        let last = (ids.len() - 1) as usize;
        assert forall|i: int| 0 <= i < before.len() implies (#[trigger] before[i]) < last by {
            assert(before.contains(before[i]));
        }
        assert forall|p: usize| #[trigger] all.contains(p) <==> p < ids.len() && ids[p as int]
            == id by {
            if before.contains(p) {
                let i = choose|i: int| 0 <= i < before.len() && before[i] == p;
                assert(all[i] == p);
                assert(front[p as int] == ids[p as int]);
            }
            if p < front.len() {
                assert(front[p as int] == ids[p as int]);
            }
            if p == last && ids[p as int] == id {
                assert(all[before.len() as int] == p);
            }
            if all.contains(p) {
                let i = choose|i: int| 0 <= i < all.len() && all[i] == p;
                if i < before.len() {
                    assert(before[i] == p);
                }
            }
        }
    }
}

/// The ranks of a chunk are its positions in the vector list and then those in the full-text
/// list, each list by itself.
pub proof fn ranks_come_from_both_lists(vec_ids: Seq<i64>, fts_ids: Seq<i64>, id: i64, p: usize)
    requires
        vec_ids.len() <= usize::MAX,
        fts_ids.len() <= usize::MAX,
    ensures
        ({
            let ranks = search::ranks_of(vec_ids, fts_ids, id);
            let n = search::places(vec_ids, id).len() as int;
            &&& n <= ranks.len()
            &&& ranks.take(n).contains(p) <==> p < vec_ids.len() && vec_ids[p as int] == id
            &&& ranks.skip(n).contains(p) <==> p < fts_ids.len() && fts_ids[p as int] == id
        }),
{
    ranks_are_the_positions(vec_ids, id);
    ranks_are_the_positions(fts_ids, id);
    let ranks = search::ranks_of(vec_ids, fts_ids, id);
    let n = search::places(vec_ids, id).len() as int;
    assert(ranks.take(n) =~= search::places(vec_ids, id));
    assert(ranks.skip(n) =~= search::places(fts_ids, id));
}

/// Two chunks of one list never share a rank.
pub proof fn chunks_never_share_a_rank(ids: Seq<i64>, a: i64, b: i64, p: usize)
    requires
        ids.len() <= usize::MAX,
        a != b,
        search::places(ids, a).contains(p),
    ensures
        !search::places(ids, b).contains(p),
{
    ranks_are_the_positions(ids, a);
    ranks_are_the_positions(ids, b);
}

/// Every chunk of the lists is there once, in the order in which the chunks first come.
pub proof fn each_chunk_is_there_once(ids: Seq<i64>)
    ensures
        search::distinct_ids(ids).no_duplicates(),
        forall|id: i64| #[trigger] search::distinct_ids(ids).contains(id) <==> ids.contains(id),
        forall|i: int, j: int|
            0 <= i < j < search::distinct_ids(ids).len() ==> comes_first(
                ids,
                #[trigger] search::distinct_ids(ids)[i],
                #[trigger] search::distinct_ids(ids)[j],
            ),
    decreases ids.len(),
{
    if ids.len() > 0 {
        let front = ids.drop_last();
        each_chunk_is_there_once(front);
        let d = search::distinct_ids(front);
        let all = search::distinct_ids(ids);
        let x = ids.last();
        assert(ids =~= front.push(x));
        assert forall|id: i64| #[trigger] all.contains(id) <==> ids.contains(id) by {
            if d.contains(id) {
                let i = choose|i: int| 0 <= i < d.len() && d[i] == id;
                assert(all[i] == id);
                assert(front.contains(id));
                let k = choose|k: int| 0 <= k < front.len() && front[k] == id;
                assert(ids[k] == id);
            }
            if id == x {
                assert(ids[ids.len() - 1] == id);
                if !d.contains(x) {
                    assert(all[d.len() as int] == id);
                }
            }
            if ids.contains(id) && id != x {
                let k = choose|k: int| 0 <= k < ids.len() && ids[k] == id;
                assert(front[k] == id);
                assert(d.contains(id));
            }
            if all.contains(id) && id != x {
                let i = choose|i: int| 0 <= i < all.len() && all[i] == id;
                assert(d[i] == id);
            }
        }
        assert forall|i: int, j: int| 0 <= i < j < all.len() implies comes_first(
            ids,
            #[trigger] all[i],
            #[trigger] all[j],
        ) by {
            if j < d.len() {
                assert(comes_first(front, d[i], d[j]));
                let p = choose|p: int|
                    0 <= p < front.len() && #[trigger] front[p] == d[i] && forall|q: int|
                        0 <= q <= p ==> #[trigger] front[q] != d[j];
                assert(ids[p] == all[i]);
                assert forall|q: int| 0 <= q <= p implies #[trigger] ids[q] != all[j] by {
                    assert(front[q] != d[j]);
                }
            } else {
                assert(d.contains(d[i]));
                let p = choose|p: int| 0 <= p < front.len() && front[p] == d[i];
                assert(ids[p] == all[i]);
                assert forall|q: int| 0 <= q <= p implies #[trigger] ids[q] != all[j] by {
                    if ids[q] == all[j] {
                        assert(front[q] == x);
                        assert(d.contains(x));
                    }
                }
            }
        }
    }
}

/// `a` stands in the list before any `b`.
pub open spec fn comes_first(ids: Seq<i64>, a: i64, b: i64) -> bool {
    exists|p: int|
        0 <= p < ids.len() && #[trigger] ids[p] == a && forall|q: int|
            0 <= q <= p ==> #[trigger] ids[q] != b
}

/// A list without repetitions is ranked as it stands: its chunk at position `i` has the
/// rank `i` and no other.
pub proof fn a_list_is_ranked_as_it_stands(ids: Seq<i64>)
    requires
        ids.no_duplicates(),
        ids.len() <= usize::MAX,
    ensures
        search::distinct_ids(ids) == ids,
        forall|i: int|
            0 <= i < ids.len() ==> #[trigger] search::places(ids, ids[i]) == seq![i as usize],
    decreases ids.len(),
{
    lemma_distinct_is_itself(ids);
    assert forall|i: int| 0 <= i < ids.len() implies #[trigger] search::places(ids, ids[i])
        == seq![i as usize] by {
        ranks_are_the_positions(ids, ids[i]);
        let s = search::places(ids, ids[i]);
        assert(s.contains(i as usize));
        assert forall|k: int| 0 <= k < s.len() implies #[trigger] s[k] == i as usize by {
            assert(s.contains(s[k]));
            assert(ids[s[k] as int] == ids[i]);
        }
        if s.len() > 1 {
            assert(s[0] < s[1]);
        }
        assert(s =~= seq![i as usize]);
    }
}

proof fn lemma_distinct_is_itself(ids: Seq<i64>)
    requires
        ids.no_duplicates(),
    ensures
        search::distinct_ids(ids) == ids,
    decreases ids.len(),
{
    if ids.len() > 0 {
        let front = ids.drop_last();
        assert(front.no_duplicates()) by {
            assert forall|i: int, j: int| 0 <= i < front.len() && 0 <= j < front.len() && i != j
                implies front[i] != front[j] by {
                assert(ids[i] != ids[j]);
            }
        }
        lemma_distinct_is_itself(front);
        if front.contains(ids.last()) {
            let k = choose|k: int| 0 <= k < front.len() && front[k] == ids.last();
            assert(ids[k] == ids[ids.len() - 1]);
        }
        assert(front.push(ids.last()) =~= ids);
    }
}

// ---------------------------------------------------------------------------
// Fusion
// ---------------------------------------------------------------------------

/// The better score, and among equal scores the smaller id.
pub open spec fn better(a: (i64, Float32), b: (i64, Float32)) -> bool {
    if a.1.is_nan() || b.1.is_nan() || a.1.rank() == b.1.rank() {
        a.0 < b.0
    } else {
        a.1.rank() > b.1.rank()
    }
}

proof fn lemma_scored(vec_ids: Seq<i64>, fts_ids: Seq<i64>, scores: Seq<Float32>)
    requires
        scores.len() == search::distinct_ids(vec_ids + fts_ids).len(),
        search::comparable_scores(scores),
    ensures
        search::ids_differ(search::scored_ids(vec_ids, fts_ids, scores)),
        search::comparable(search::scored_ids(vec_ids, fts_ids, scores)),
{
    let ids = search::distinct_ids(vec_ids + fts_ids);
    let scored = search::scored_ids(vec_ids, fts_ids, scores);
    each_chunk_is_there_once(vec_ids + fts_ids);
    assert forall|i: int, j: int| 0 <= i < j < scored.len() implies (#[trigger] scored[i]).0 != (
    #[trigger] scored[j]).0 by {
        assert(ids[i] != ids[j]);
    }
    if forall|i: int| 0 <= i < scores.len() ==> !(#[trigger] scores[i]).is_nan() {
        assert forall|i: int| 0 <= i < scored.len() implies !(#[trigger] scored[i]).1.is_nan() by {
            assert(!scores[i].is_nan());
        }
    } else {
        assert forall|i: int| 0 <= i < scored.len() implies (#[trigger] scored[i]).1.is_nan() by {
            assert(scores[i].is_nan());
        }
    }
}

/// What fusion puts out: every chunk of the two lists once, with the score that it was
/// given, each better than all that follow it. A limit keeps the first ones.
pub proof fn fusion_puts_the_better_first(
    vec_ids: Seq<i64>,
    fts_ids: Seq<i64>,
    scores: Seq<Float32>,
    limit: Option<u32>,
)
    requires
        scores.len() == search::distinct_ids(vec_ids + fts_ids).len(),
        search::comparable_scores(scores),
    ensures
        ({
            let ids = search::distinct_ids(vec_ids + fts_ids);
            let scored = search::scored_ids(vec_ids, fts_ids, scores);
            let all = search::ranked(scored);
            let kept = search::cut(all, limit);
            &&& all.len() == ids.len()
            &&& forall|id: i64, score: Float32| #[trigger]
                all.contains((id, score)) <==> exists|i: int|
                    0 <= i < ids.len() && #[trigger] ids[i] == id && scores[i] == score
            &&& forall|i: int, j: int|
                0 <= i < j < all.len() ==> better(#[trigger] all[i], #[trigger] all[j])
            &&& limit is None ==> kept == all
            &&& limit matches Some(n) ==> n >= all.len() ==> kept == all
            &&& limit matches Some(n) ==> n <= all.len() ==> kept == all.take(n as int)
        }),
{
    broadcast use vstd::seq_lib::group_to_multiset_ensures;

    let ids = search::distinct_ids(vec_ids + fts_ids);
    let scored = search::scored_ids(vec_ids, fts_ids, scores);
    let less = |a: (i64, Float32), b: (i64, Float32)| search::ranks_before(a, b);
    let all = search::ranked(scored);
    lemma_scored(vec_ids, fts_ids, scores);
    search::fusion_is_deterministic(scored, scored);
    sort::arranging_keeps_the_elements(scored, less);
    assert forall|id: i64, score: Float32| #[trigger] all.contains((id, score)) <==> exists|i: int|
        0 <= i < ids.len() && #[trigger] ids[i] == id && scores[i] == score by {
        let x = (id, score);
        assert(all.contains(x) <==> all.to_multiset().count(x) > 0);
        assert(scored.contains(x) <==> scored.to_multiset().count(x) > 0);
        if scored.contains(x) {
            let i = choose|i: int| 0 <= i < scored.len() && scored[i] == x;
            assert(ids[i] == id && scores[i] == score);
        }
        if exists|i: int| 0 <= i < ids.len() && #[trigger] ids[i] == id && scores[i] == score {
            let i = choose|i: int|
                0 <= i < ids.len() && #[trigger] ids[i] == id && scores[i] == score;
            assert(scored[i] == x);
        }
    }
    assert forall|i: int, j: int| 0 <= i < j < all.len() implies better(
        #[trigger] all[i],
        #[trigger] all[j],
    ) by {
        assert(!less(all[j], all[i]));
        let a = all[i];
        let b = all[j];
        lemma_ranked_once(scored, i, j);
        assert(all.contains(a) && all.contains(b));
        assert(all.to_multiset().count(a) > 0 && all.to_multiset().count(b) > 0);
        assert(scored.contains(a) && scored.contains(b));
        let p = choose|p: int| 0 <= p < scored.len() && scored[p] == a;
        let q = choose|q: int| 0 <= q < scored.len() && scored[q] == b;
        assert(scored[p].1.is_nan() == scored[q].1.is_nan());
    }
    match limit {
        Some(n) => {
            assert(all.take(all.len() as int) =~= all);
        },
        None => {},
    }
}

proof fn lemma_ranked_once(scored: Seq<(i64, Float32)>, i: int, j: int)
    requires
        search::ids_differ(scored),
        0 <= i < j < search::ranked(scored).len(),
    ensures
        search::ranked(scored)[i].0 != search::ranked(scored)[j].0,
{
    broadcast use vstd::seq_lib::group_to_multiset_ensures;

    let less = |a: (i64, Float32), b: (i64, Float32)| search::ranks_before(a, b);
    let all = search::ranked(scored);
    sort::arranging_keeps_the_elements(scored, less);
    let a = all[i];
    let b = all[j];
    assert(all.contains(a) && all.contains(b));
    assert(all.to_multiset().count(a) > 0 && all.to_multiset().count(b) > 0);
    assert(scored.contains(a) && scored.contains(b));
    let p = choose|p: int| 0 <= p < scored.len() && scored[p] == a;
    let q = choose|q: int| 0 <= q < scored.len() && scored[q] == b;
    if a.0 == b.0 {
        assert(p == q);
        assert(a == b);
        assert(scored.no_duplicates()) by {
            assert forall|m: int, n: int| 0 <= m < scored.len() && 0 <= n < scored.len() && m != n
                implies scored[m] != scored[n] by {
                if m < n {
                    assert(scored[m].0 != scored[n].0);
                } else {
                    assert(scored[n].0 != scored[m].0);
                }
            }
        }
        scored.lemma_multiset_has_no_duplicates();
        assert(scored.to_multiset().count(a) == 1);
        assert(all.to_multiset().count(a) == 1);
        let rest = all.remove(j);
        assert(rest[i] == a);
        assert(rest.contains(a));
        assert(rest.to_multiset() =~= all.to_multiset().remove(a));
        assert(rest.to_multiset().count(a) > 0);
    }
}

/// One list alone keeps its order, under any score that falls from one rank to the
/// next, on either side.
pub proof fn one_list_keeps_its_order(ids: Seq<i64>, scores: Seq<Float32>)
    requires
        ids.no_duplicates(),
        scores.len() == ids.len(),
        forall|i: int| 0 <= i < scores.len() ==> !(#[trigger] scores[i]).is_nan(),
        forall|i: int, j: int|
            0 <= i < j < scores.len() ==> (#[trigger] scores[j]).below(#[trigger] scores[i]),
    ensures
        search::ranked(search::scored_ids(ids, Seq::empty(), scores)) == Seq::new(
            ids.len(),
            |i: int| (ids[i], scores[i]),
        ),
        search::ranked(search::scored_ids(Seq::empty(), ids, scores)) == Seq::new(
            ids.len(),
            |i: int| (ids[i], scores[i]),
        ),
{
    assert(ids + Seq::<i64>::empty() =~= ids);
    assert(Seq::<i64>::empty() + ids =~= ids);
    lemma_distinct_is_itself(ids);
    let given = Seq::new(ids.len(), |i: int| (ids[i], scores[i]));
    assert(search::scored_ids(ids, Seq::empty(), scores) =~= given);
    assert(search::scored_ids(Seq::empty(), ids, scores) =~= given);
    let less = |a: (i64, Float32), b: (i64, Float32)| search::ranks_before(a, b);
    assert forall|i: int, j: int| 0 <= i < j < given.len() implies !less(
        #[trigger] given[j],
        #[trigger] given[i],
    ) by {
        assert(scores[j].below(scores[i]));
    }
    lemma_in_order_stays(given, less);
}

proof fn lemma_in_order_stays(
    s: Seq<(i64, Float32)>,
    less: spec_fn((i64, Float32), (i64, Float32)) -> bool,
)
    requires
        forall|i: int, j: int| 0 <= i < j < s.len() ==> !less(#[trigger] s[j], #[trigger] s[i]),
    ensures
        sort::arranged(s, less) == s,
    decreases s.len(),
{
    if s.len() > 0 {
        let front = s.drop_last();
        assert forall|i: int, j: int| 0 <= i < j < front.len() implies !less(
            #[trigger] front[j],
            #[trigger] front[i],
        ) by {
            assert(front[j] == s[j] && front[i] == s[i]);
        }
        lemma_in_order_stays(front, less);
        if front.len() > 0 {
            assert(!less(s[s.len() - 1], s[front.len() - 1]));
        }
        assert(front.push(s.last()) =~= s);
    }
}

/// The place at which a chunk first stands among the hits.
pub open spec fn stands_first(hits: Seq<(i64, ResultText)>, id: i64, m: int) -> bool {
    &&& 0 <= m < hits.len()
    &&& hits[m].0 == id
    &&& forall|k: int| 0 <= k < m ==> (#[trigger] hits[k]).0 != id
}

proof fn lemma_row_of(hits: Seq<(i64, ResultText)>, id: i64, m: int)
    requires
        stands_first(hits, id, m),
    ensures
        search::row_of(hits, id) == Some(hits[m].1),
    decreases m,
{
    if m > 0 {
        let rest = hits.skip(1);
        assert(hits[0].0 != id);
        assert(rest[m - 1] == hits[m]);
        assert forall|k: int| 0 <= k < m - 1 implies (#[trigger] rest[k]).0 != id by {
            assert(rest[k] == hits[k + 1]);
        }
        lemma_row_of(rest, id, m - 1);
    }
}

/// Every fused hit is a row of the lists with its score replaced: that of the vector
/// list where it holds the chunk, and else that of the full-text list, the first such
/// row in each.
pub proof fn fused_hits_are_rows_of_the_lists(
    vec_hits: Seq<(i64, ResultText)>,
    fts_hits: Seq<(i64, ResultText)>,
    scores: Seq<Float32>,
    limit: Option<u32>,
    i: int,
    m: int,
)
    requires
        scores.len() == search::distinct_ids(
            search::hit_ids(vec_hits) + search::hit_ids(fts_hits),
        ).len(),
        search::comparable_scores(scores),
        0 <= i < search::fused_order(vec_hits, fts_hits, scores, limit).len(),
    ensures
        ({
            let (id, score) = search::fused_order(vec_hits, fts_hits, scores, limit)[i];
            let fused = search::with_rows(
                search::fused_order(vec_hits, fts_hits, scores, limit),
                vec_hits + fts_hits,
            );
            &&& i < fused.len()
            &&& fused[i].0 == id
            &&& fused[i].1.score == score
            &&& stands_first(vec_hits, id, m) ==> fused[i].1 == (ResultText {
                score,
                ..vec_hits[m].1
            })
            &&& !search::hit_ids(vec_hits).contains(id) && stands_first(fts_hits, id, m)
                ==> fused[i].1 == (ResultText { score, ..fts_hits[m].1 })
        }),
{
    search::fusion_keeps_every_chunk(vec_hits, fts_hits, scores, limit);
    let (id, score) = search::fused_order(vec_hits, fts_hits, scores, limit)[i];
    let hits = vec_hits + fts_hits;
    let fused = search::with_rows(
        search::fused_order(vec_hits, fts_hits, scores, limit),
        hits,
    );
    assert(fused[i].0 == id);
    if stands_first(vec_hits, id, m) {
        assert(stands_first(hits, id, m)) by {
            assert(hits[m] == vec_hits[m]);
            assert forall|k: int| 0 <= k < m implies (#[trigger] hits[k]).0 != id by {
                assert(hits[k] == vec_hits[k]);
            }
        }
        lemma_row_of(hits, id, m);
    }
    if !search::hit_ids(vec_hits).contains(id) && stands_first(fts_hits, id, m) {
        let n = vec_hits.len() + m;
        assert(stands_first(hits, id, n)) by {
            assert(hits[n] == fts_hits[m]);
            assert forall|k: int| 0 <= k < n implies (#[trigger] hits[k]).0 != id by {
                if k < vec_hits.len() {
                    assert(hits[k] == vec_hits[k]);
                    assert(search::hit_ids(vec_hits)[k] == vec_hits[k].0);
                } else {
                    assert(hits[k] == fts_hits[k - vec_hits.len()]);
                }
            }
        }
        lemma_row_of(hits, id, n);
    }
}

// ---------------------------------------------------------------------------
// Candidates
// ---------------------------------------------------------------------------

/// The candidates are the rows that pass the filters, in their order, each as its hit.
pub proof fn candidates_are_the_rows_that_pass(
    rows: Seq<CandidateRow>,
    filters: SearchFilters<'_>,
)
    ensures
        search::kept_hits(rows, filters) == rows.filter(
            |r: CandidateRow| db::passes(r, filters),
        ).map_values(|r: CandidateRow| db::hit_of(r)),
    decreases rows.len(),
{
    reveal(Seq::filter);
    let keep = |r: CandidateRow| db::passes(r, filters);
    let as_hit = |r: CandidateRow| db::hit_of(r);
    if rows.len() > 0 {
        candidates_are_the_rows_that_pass(rows.drop_last(), filters);
        let before = rows.drop_last().filter(keep);
        assert(before.push(rows.last()).map_values(as_hit) =~= before.map_values(as_hit).push(
            as_hit(rows.last()),
        ));
    }
    assert(search::kept_hits(rows, filters) =~= rows.filter(keep).map_values(as_hit));
}

/// No more rows are read than it takes: all of them, or those up to the one that makes
/// the hits enough, and no fewer.
pub proof fn reading_stops_when_there_are_enough(
    rows: Seq<CandidateRow>,
    filters: SearchFilters<'_>,
    limit: u32,
)
    ensures
        ({
            let n = search::rows_read(rows, filters, limit) as int;
            let wanted = if limit == 0 {
                1
            } else {
                limit as int
            };
            &&& 0 <= n <= rows.len()
            &&& n < rows.len() ==> search::kept_hits(rows.take(n), filters).len() == wanted
                && db::passes(rows[n - 1], filters)
            &&& n == rows.len() && n > 0 ==> search::kept_hits(rows.take(n - 1), filters).len()
                < wanted
        }),
    decreases rows.len(),
{
    if rows.len() > 0 {
        let front = rows.drop_last();
        reading_stops_when_there_are_enough(front, filters, limit);
        let n = search::rows_read(rows, filters, limit) as int;
        let before = search::rows_read(front, filters, limit) as int;
        if n < rows.len() {
            assert(rows.take(n) =~= front.take(n));
            if before < front.len() {
            } else {
                assert(front.take(before) =~= front);
                if before > 0 {
                    assert(front.take(before).drop_last() =~= front.take(before - 1));
                    assert(front[before - 1] == rows[before - 1]);
                }
            }
            if before < front.len() && before > 0 {
                assert(front[before - 1] == rows[before - 1]);
            }
        } else {
            assert(rows.take(n - 1) =~= front);
        }
    }
}

/// The rows whose tags cannot be read are counted, as far as they are read at all: those
/// that pass the filters on the columns. The count starts again from nothing past its end.
pub proof fn unreadable_tags_are_counted(
    rows: Seq<CandidateRow>,
    filters: SearchFilters<'_>,
    count: u64,
)
    ensures
        search::counted_failures(rows, filters, count) as int == (count + rows.filter(
            |r: CandidateRow|
                db::passes_columns(r, filters) && tags::malformed_tags(r.tags_json),
        ).len()) % 0x1_0000_0000_0000_0000,
    decreases rows.len(),
{
    reveal(Seq::filter);
    let bad = |r: CandidateRow|
        db::passes_columns(r, filters) && tags::malformed_tags(r.tags_json);
    if rows.len() > 0 {
        unreadable_tags_are_counted(rows.drop_last(), filters, count);
        let m = count + rows.drop_last().filter(bad).len();
        assert((m + 1) % 0x1_0000_0000_0000_0000 == (m % 0x1_0000_0000_0000_0000 + 1)
            % 0x1_0000_0000_0000_0000) by (nonlinear_arith);
    }
}

// ---------------------------------------------------------------------------
// How much is asked of the index
// ---------------------------------------------------------------------------

/// Without filters as many rows are asked for as are wanted. With filters ten times as
/// many are, but never more than ten thousand.
pub proof fn filters_ask_for_more(limit: u32)
    ensures
        search::overfetched(limit, false) == limit,
        limit <= 1000 ==> search::overfetched(limit, true) == 10 * limit,
        limit >= 1000 ==> search::overfetched(limit, true) == 10_000,
{
}

/// Of the nearest chunks at most 4096 are asked for, and as many as of the full text
/// where that is less.
pub proof fn neighbours_are_capped(limit: u32, filtered: bool)
    ensures
        search::overfetched(limit, filtered) <= 4096 ==> search::neighbours_asked(limit, filtered)
            == search::overfetched(limit, filtered),
        search::overfetched(limit, filtered) >= 4096 ==> search::neighbours_asked(limit, filtered)
            == 4096,
{
}

/// Each side contributes five times as many candidates as are wanted, as far as the number
/// goes, and fifty at least; where all of them are wanted, as many as these and fifty at
/// least.
pub proof fn pools_hold_five_times_as_many(limit: u32)
    ensures
        search::pool_for(limit) >= 50,
        search::pool_for(limit) >= limit,
        10 <= limit <= 0x3333_3333 ==> search::pool_for(limit) == 5 * limit,
        limit <= 10 ==> search::pool_for(limit) == 50,
        limit > 0x3333_3333 ==> search::pool_for(limit) == 0xffff_ffff,
        limit <= 50 ==> search::whole_pool(limit) == 50,
        limit >= 50 ==> search::whole_pool(limit) == limit,
{
}

/// The full-text index is asked with the weights of the configuration, for the number of
/// rows that the filters need, whenever the query has something to ask.
pub proof fn full_text_requests_carry_the_weights(
    query: Seq<char>,
    limit: u32,
    filtered: bool,
    fusion: db::FusionParams,
)
    ensures
        search::fts_request(query, limit, filtered, fusion) is Some <==> search::sanitized(
            query,
        ) is Some,
        search::fts_request(query, limit, filtered, fusion) matches Some(q) ==> {
            &&& search::sanitized(query) == Some(q.expression)
            &&& q.fetch_limit == search::overfetched(limit, filtered)
            &&& q.heading_weight == fusion.bm25_heading_weight
            &&& q.context_weight == fusion.bm25_context_weight
            &&& q.content_weight == fusion.bm25_content_weight
        },
{
}

} // verus!
