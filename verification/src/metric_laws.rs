//! What the metrics of a query mean, said of the hits alone.

use crate::metrics;
use crate::metrics::{ExpectedHit, HitRecord, QueryCounts};
use crate::text;
use vstd::prelude::*;

verus! {

/// When a hit is the expected one: never at another path; at its path always, where no
/// heading is expected; never, where one is expected and the hit has none; and else
/// where the two headings read alike.
pub proof fn what_counts_as_a_hit(e: ExpectedHit, h: HitRecord)
    ensures
        e.path@ != h.path@ ==> !metrics::hits(e, h),
        e.path@ == h.path@ && e.heading is None ==> metrics::hits(e, h),
        e.heading is Some && h.heading is None ==> !metrics::hits(e, h),
        e.path@ == h.path@ && e.heading is Some && h.heading is Some ==> (metrics::hits(e, h)
            <==> metrics::lowercased(text::trimmed(e.heading->0@)) == metrics::lowercased(
            text::trimmed(h.heading->0@),
        )),
{
}

/// Some of the first `n` hits is one of the expected ones.
pub open spec fn came_back(expected: Seq<ExpectedHit>, top: Seq<HitRecord>, n: int) -> bool {
    exists|i: int, j: int|
        0 <= i < expected.len() && 0 <= j < n && j < top.len() && #[trigger] metrics::hits(
            expected[i],
            top[j],
        )
}

proof fn lemma_first_wanted(expected: Seq<ExpectedHit>, top: Seq<HitRecord>) -> (j: int)
    ensures
        0 <= j <= top.len(),
        forall|i: int, m: int|
            0 <= i < expected.len() && 0 <= m < j ==> !#[trigger] metrics::hits(
                expected[i],
                top[m],
            ),
        j < top.len() ==> exists|i: int|
            0 <= i < expected.len() && #[trigger] metrics::hits(expected[i], top[j]),
        metrics::first_wanted(expected, top) == (if j < top.len() {
            Some(top[j])
        } else {
            None
        }),
    decreases top.len(),
{
    if top.len() == 0 {
        0
    } else if metrics::wanted(expected, top[0]) {
        0
    } else {
        let rest = top.skip(1);
        let j = lemma_first_wanted(expected, rest);
        assert forall|i: int, m: int| 0 <= i < expected.len() && 0 <= m < j + 1 implies
            !#[trigger] metrics::hits(expected[i], top[m]) by {
            if m > 0 {
                assert(rest[m - 1] == top[m]);
            }
        }
        if j < rest.len() {
            assert(rest[j] == top[j + 1]);
        }
        j + 1
    }
}

/// The reciprocal rank is decided by the first hit that is any of the expected ones: it
/// is one over its rank. Without such a hit it is nothing.
pub proof fn reciprocal_rank_is_that_of_the_first_expected_hit(
    expected: Seq<ExpectedHit>,
    top: Seq<HitRecord>,
    i: int,
    j: int,
)
    requires
        0 <= i < expected.len(),
        0 <= j < top.len(),
        metrics::hits(expected[i], top[j]),
        !came_back(expected, top, j),
    ensures
        top[j].rank > 0 ==> metrics::first_rank(expected, top) == (1nat, top[j].rank as nat),
        top[j].rank == 0 ==> metrics::first_rank(expected, top) == (0nat, 1nat),
{
    let m = lemma_first_wanted(expected, top);
    if m < j {
        let k = choose|k: int|
            0 <= k < expected.len() && #[trigger] metrics::hits(expected[k], top[m]);
        assert(metrics::hits(expected[k], top[m]));
    }
}

/// Where no hit is an expected one, the reciprocal rank is nothing.
pub proof fn reciprocal_rank_needs_an_expected_hit(
    expected: Seq<ExpectedHit>,
    top: Seq<HitRecord>,
)
    requires
        !came_back(expected, top, top.len() as int),
    ensures
        metrics::first_rank(expected, top) == (0nat, 1nat),
{
    let m = lemma_first_wanted(expected, top);
    if m < top.len() {
        let k = choose|k: int|
            0 <= k < expected.len() && #[trigger] metrics::hits(expected[k], top[m]);
        assert(metrics::hits(expected[k], top[m]));
    }
}

/// For hits that are ranked from 1 on, the reciprocal rank is 1 over the least rank at
/// which an expected hit stands.
pub proof fn reciprocal_rank_is_the_least(expected: Seq<ExpectedHit>, top: Seq<HitRecord>)
    requires
        forall|j: int| 0 <= j < top.len() ==> (#[trigger] top[j]).rank == j + 1,
    ensures
        metrics::first_rank(expected, top).0 == 1 <==> came_back(
            expected,
            top,
            top.len() as int,
        ),
        metrics::first_rank(expected, top).0 <= 1,
        metrics::first_rank(expected, top).1 >= 1,
        metrics::first_rank(expected, top).0 == 1 ==> came_back(
            expected,
            top,
            metrics::first_rank(expected, top).1 as int,
        ) && !came_back(expected, top, metrics::first_rank(expected, top).1 - 1),
        metrics::first_rank(expected, top).0 == 0 ==> metrics::first_rank(expected, top).1 == 1,
{
    let m = lemma_first_wanted(expected, top);
    if m < top.len() {
        let k = choose|k: int|
            0 <= k < expected.len() && #[trigger] metrics::hits(expected[k], top[m]);
        assert(metrics::hits(expected[k], top[m]));
        assert(came_back(expected, top, m + 1));
        assert(top[m].rank == m + 1);
    }
}

/// A reciprocal rank that is not nothing and a recall that is not nothing, over all the
/// hits, come together.
pub proof fn reciprocal_rank_comes_with_recall(expected: Seq<ExpectedHit>, top: Seq<HitRecord>)
    requires
        forall|j: int| 0 <= j < top.len() ==> (#[trigger] top[j]).rank > 0,
    ensures
        metrics::first_rank(expected, top).0 > 0 <==> metrics::recall(
            expected,
            top,
            top.len(),
        ).0 > 0,
{
    let m = lemma_first_wanted(expected, top);
    lemma_some_found(expected, top);
}

proof fn lemma_some_found(expected: Seq<ExpectedHit>, top: Seq<HitRecord>)
    ensures
        metrics::found_count(expected, top) > 0 <==> came_back(expected, top, top.len() as int),
    decreases expected.len(),
{
    if expected.len() > 0 {
        let front = expected.drop_last();
        lemma_some_found(front, top);
        if came_back(front, top, top.len() as int) {
            let (i, j) = choose|i: int, j: int|
                0 <= i < front.len() && 0 <= j < top.len() && #[trigger] metrics::hits(
                    front[i],
                    top[j],
                );
            assert(metrics::hits(expected[i], top[j]));
        }
        if metrics::found(expected.last(), top) {
            let j = choose|j: int|
                0 <= j < top.len() && #[trigger] metrics::hits(expected.last(), top[j]);
            assert(metrics::hits(expected[expected.len() - 1], top[j]));
        }
        if came_back(expected, top, top.len() as int) {
            let (i, j) = choose|i: int, j: int|
                0 <= i < expected.len() && 0 <= j < top.len() && #[trigger] metrics::hits(
                    expected[i],
                    top[j],
                );
            if i < front.len() {
                assert(metrics::hits(front[i], top[j]));
            } else {
                assert(metrics::hits(expected.last(), top[j]));
            }
        }
    }
}

/// The order in which the expected hits are listed does not matter to the reciprocal
/// rank.
pub proof fn reciprocal_rank_forgets_the_order_of_the_expected(
    expected: Seq<ExpectedHit>,
    other: Seq<ExpectedHit>,
    top: Seq<HitRecord>,
)
    requires
        expected.to_set() == other.to_set(),
    ensures
        metrics::first_rank(expected, top) == metrics::first_rank(other, top),
{
    let m = lemma_first_wanted(expected, top);
    let n = lemma_first_wanted(other, top);
    if m < n {
        let i = choose|i: int|
            0 <= i < expected.len() && #[trigger] metrics::hits(expected[i], top[m]);
        assert(expected.to_set().contains(expected[i]));
        assert(other.contains(expected[i]));
        let k = choose|k: int| 0 <= k < other.len() && other[k] == expected[i];
        assert(metrics::hits(other[k], top[m]));
    }
    if n < m {
        let i = choose|i: int| 0 <= i < other.len() && #[trigger] metrics::hits(other[i], top[n]);
        assert(other.to_set().contains(other[i]));
        assert(expected.contains(other[i]));
        let k = choose|k: int| 0 <= k < expected.len() && expected[k] == other[i];
        assert(metrics::hits(expected[k], top[n]));
    }
}

/// The positions of the expected hits that are among the first `k` hits.
pub open spec fn found_within(
    expected: Seq<ExpectedHit>,
    top: Seq<HitRecord>,
    k: nat,
) -> spec_fn(int) -> bool {
    |i: int|
        exists|j: int|
            0 <= j < top.len() && j < k && #[trigger] metrics::hits(expected[i], top[j])
}

proof fn lemma_found_count(expected: Seq<ExpectedHit>, top: Seq<HitRecord>, k: nat, n: int)
    requires
        0 <= n <= expected.len(),
    ensures
        metrics::found_count(expected.take(n), metrics::window(top, k)) == Seq::new(
            n as nat,
            |i: int| i,
        ).filter(found_within(expected, top, k)).len(),
    decreases n,
{
    reveal(Seq::filter);
    let w = metrics::window(top, k);
    let all = Seq::new(n as nat, |i: int| i);
    if n > 0 {
        lemma_found_count(expected, top, k, n - 1);
        assert(all.drop_last() =~= Seq::new((n - 1) as nat, |i: int| i));
        assert(expected.take(n).drop_last() =~= expected.take(n - 1));
        let e = expected[n - 1];
        assert(expected.take(n).last() == e);
        if metrics::found(e, w) {
            let j = choose|j: int| 0 <= j < w.len() && #[trigger] metrics::hits(e, w[j]);
            assert(metrics::hits(e, top[j]));
            assert(found_within(expected, top, k)(n - 1));
        }
        if found_within(expected, top, k)(n - 1) {
            let j = choose|j: int|
                0 <= j < top.len() && j < k && #[trigger] metrics::hits(expected[n - 1], top[j]);
            assert(w[j] == top[j]);
            assert(metrics::hits(e, w[j]));
        }
    }
}

/// Recall is the number of expected hits that are among the first `k` hits, over the
/// number of expected hits. It is nothing where nothing is expected or came back.
pub proof fn recall_counts_the_expected_that_came_back(
    expected: Seq<ExpectedHit>,
    top: Seq<HitRecord>,
    k: nat,
)
    ensures
        expected.len() > 0 && top.len() > 0 ==> metrics::recall(expected, top, k) == (
            Seq::new(expected.len(), |i: int| i).filter(found_within(expected, top, k)).len(),
            expected.len(),
        ),
        expected.len() == 0 || top.len() == 0 ==> metrics::recall(expected, top, k) == (
            0nat,
            1nat,
        ),
{
    lemma_found_count(expected, top, k, expected.len() as int);
    assert(expected.take(expected.len() as int) =~= expected);
}

/// Recall is full exactly where every expected hit is among the first `k`, and nothing
/// exactly where none is.
pub proof fn full_recall_finds_everything(
    expected: Seq<ExpectedHit>,
    top: Seq<HitRecord>,
    k: nat,
)
    requires
        expected.len() > 0,
        top.len() > 0,
    ensures
        metrics::recall(expected, top, k).0 == metrics::recall(expected, top, k).1 <==> forall|
            i: int,
        |
            0 <= i < expected.len() ==> #[trigger] found_within(expected, top, k)(i),
        metrics::recall(expected, top, k).0 == 0 <==> forall|i: int|
            0 <= i < expected.len() ==> !#[trigger] found_within(expected, top, k)(i),
{
    recall_counts_the_expected_that_came_back(expected, top, k);
    lemma_filter_extremes(found_within(expected, top, k), expected.len());
}

proof fn lemma_filter_extremes(p: spec_fn(int) -> bool, n: nat)
    ensures
        Seq::new(n, |i: int| i).filter(p).len() <= n,
        Seq::new(n, |i: int| i).filter(p).len() == n <==> forall|i: int|
            0 <= i < n ==> #[trigger] p(i),
        Seq::new(n, |i: int| i).filter(p).len() == 0 <==> forall|i: int|
            0 <= i < n ==> !#[trigger] p(i),
    decreases n,
{
    reveal(Seq::filter);
    if n > 0 {
        let m = (n - 1) as nat;
        lemma_filter_extremes(p, m);
        let all = Seq::new(n, |i: int| i);
        assert(all.drop_last() =~= Seq::new(m, |i: int| i));
        assert(all.last() == n - 1);
        if p(n - 1) {
        } else {
            assert(!p(n - 1));
        }
    }
}

// ---------------------------------------------------------------------------
// Gains
// ---------------------------------------------------------------------------

/// Whether the expected hit `i` is free for hit `j`: hit `j` is it, and no hit before
/// has been counted for it.
pub open spec fn free(
    expected: Seq<ExpectedHit>,
    top: Seq<HitRecord>,
    given: Seq<Option<int>>,
    i: int,
    j: int,
) -> bool {
    &&& 0 <= i < expected.len()
    &&& metrics::hits(expected[i], top[j])
    &&& forall|m: int| 0 <= m < j ==> #[trigger] given[m] != Some(i)
}

/// Whether hit `j` is given what it should be: an expected hit that is free for it,
/// one with a heading before one without, an earlier one before a later one; and
/// nothing only where nothing is free.
pub open spec fn given_rightly(
    expected: Seq<ExpectedHit>,
    top: Seq<HitRecord>,
    given: Seq<Option<int>>,
    j: int,
) -> bool {
    match given[j] {
        Some(i) => {
            &&& free(expected, top, given, i, j)
            &&& forall|o: int| #[trigger]
                free(expected, top, given, o, j) && o != i ==> {
                    ||| expected[i].heading is Some && expected[o].heading is None
                    ||| (expected[i].heading is Some <==> expected[o].heading is Some) && i < o
                }
        },
        None => forall|o: int| !#[trigger] free(expected, top, given, o, j),
    }
}

/// The ranks of the hits that are given something.
pub open spec fn given_ranks(top: Seq<HitRecord>, given: Seq<Option<int>>) -> Seq<usize>
    decreases top.len(),
{
    if top.len() == 0 {
        Seq::empty()
    } else {
        let before = given_ranks(top.drop_last(), given.drop_last());
        if given.last() is Some {
            before.push(top.last().rank)
        } else {
            before
        }
    }
}

spec fn consumed_by(expected: Seq<ExpectedHit>, given: Seq<Option<int>>) -> Seq<bool> {
    Seq::new(expected.len(), |i: int| given.contains(Some(i)))
}

proof fn lemma_given(expected: Seq<ExpectedHit>, top: Seq<HitRecord>) -> (given: Seq<Option<int>>)
    ensures
        given.len() == top.len(),
        forall|j: int| 0 <= j < top.len() ==> #[trigger] given_rightly(expected, top, given, j),
        metrics::matched(expected, top) == (
            consumed_by(expected, given),
            given_ranks(top, given),
        ),
    decreases top.len(),
{
    if top.len() == 0 {
        let given: Seq<Option<int>> = Seq::empty();
        assert(consumed_by(expected, given) =~= Seq::new(expected.len(), |i: int| false));
        given
    } else {
        let front = top.drop_last();
        let before = lemma_given(expected, front);
        let consumed = consumed_by(expected, before);
        let h = top.last();
        let n = front.len() as int;
        let some = exists|i: int| metrics::taken_for(expected, consumed, h, i);
        let i = choose|i: int| metrics::taken_for(expected, consumed, h, i);
        let given = before.push(
            if some {
                Some(i)
            } else {
                None
            },
        );
        assert(given.drop_last() =~= before);
        assert forall|o: int| 0 <= o < expected.len() implies (#[trigger] free(
            expected,
            top,
            given,
            o,
            n,
        ) <==> metrics::open_for(expected, consumed, h, o)) by {
            if before.contains(Some(o)) {
                let m = choose|m: int| 0 <= m < before.len() && before[m] == Some(o);
                assert(given[m] == Some(o));
            }
            assert forall|m: int| 0 <= m < n implies #[trigger] given[m] == before[m] by {}
            if !free(expected, top, given, o, n) && metrics::hits(expected[o], h) {
                let m = choose|m: int| 0 <= m < n && #[trigger] given[m] == Some(o);
                assert(before.contains(before[m]));
            }
        }
        assert forall|j: int| 0 <= j < top.len() implies #[trigger] given_rightly(
            expected,
            top,
            given,
            j,
        ) by {
            if j < n {
                assert(given_rightly(expected, front, before, j));
                assert(given[j] == before[j]);
                assert(front[j] == top[j]);
                assert forall|o: int| #[trigger] free(expected, top, given, o, j) == free(
                    expected,
                    front,
                    before,
                    o,
                    j,
                ) by {
                    assert forall|m: int| 0 <= m < j implies #[trigger] given[m] == before[m] by {}
                }
            } else if some {
                assert(metrics::open_for(expected, consumed, h, i));
                assert(free(expected, top, given, i, n));
                assert forall|o: int| #[trigger] free(expected, top, given, o, n) && o != i implies ({
                    ||| expected[i].heading is Some && expected[o].heading is None
                    ||| (expected[i].heading is Some <==> expected[o].heading is Some) && i < o
                }) by {
                    assert(metrics::open_for(expected, consumed, h, o));
                    assert(metrics::goes_before(expected, i, o));
                }
            } else {
                if exists|o: int| #[trigger] free(expected, top, given, o, n) {
                    let o = choose|o: int| #[trigger] free(expected, top, given, o, n);
                    assert(metrics::open_for(expected, consumed, h, o));
                    lemma_best_open(expected, consumed, h, o);
                }
            }
        }
        if some {
            assert forall|o: int| 0 <= o < expected.len() implies given.contains(Some(o)) == (
            o == i || before.contains(Some(o))) by {
                if before.contains(Some(o)) {
                    let m = choose|m: int| 0 <= m < before.len() && before[m] == Some(o);
                    assert(given[m] == Some(o));
                }
                if o == i {
                    assert(given[n] == Some(o));
                }
                if given.contains(Some(o)) && o != i {
                    let m = choose|m: int| 0 <= m < given.len() && given[m] == Some(o);
                    assert(before[m] == Some(o));
                }
            }
            assert(consumed_by(expected, given) =~= consumed.update(i, true));
        } else {
            assert forall|o: int| given.contains(Some(o)) == before.contains(Some(o)) by {
                if before.contains(Some(o)) {
                    let m = choose|m: int| 0 <= m < before.len() && before[m] == Some(o);
                    assert(given[m] == Some(o));
                }
                if given.contains(Some(o)) {
                    let m = choose|m: int| 0 <= m < given.len() && given[m] == Some(o);
                    assert(before[m] == Some(o));
                }
            }
            assert(consumed_by(expected, given) =~= consumed);
        }
        given
    }
}

/// Among the open ones there is one that goes before all others.
proof fn lemma_best_open(expected: Seq<ExpectedHit>, consumed: Seq<bool>, h: HitRecord, o: int)
    requires
        metrics::open_for(expected, consumed, h, o),
    ensures
        exists|i: int| metrics::taken_for(expected, consumed, h, i),
    decreases
            (if expected[o].heading is None {
                expected.len()
            } else {
                0
            }) + o,
{
    if !metrics::taken_for(expected, consumed, h, o) {
        let p = choose|p: int| #[trigger]
            metrics::open_for(expected, consumed, h, p) && p != o && !metrics::goes_before(
                expected,
                o,
                p,
            );
        lemma_best_open(expected, consumed, h, p);
    }
}

/// How gains come about: going through the first `k` hits, each is given an expected
/// hit that it is and that none before it was given, a more exact one first, and is
/// left without only where there is none. The gains are the ranks of those that were
/// given one.
pub proof fn gains_are_given_one_by_one(
    expected: Seq<ExpectedHit>,
    top: Seq<HitRecord>,
    k: nat,
) -> (given: Seq<Option<int>>)
    ensures
        ({
            let n = if k < top.len() {
                k as int
            } else {
                top.len() as int
            };
            let first = top.take(n);
            &&& given.len() == n
            &&& forall|j: int| 0 <= j < n ==> #[trigger] given_rightly(expected, first, given, j)
            &&& metrics::gain_ranks(expected, top, k) == given_ranks(first, given)
        }),
{
    assert(top.take(top.len() as int) =~= top);
    lemma_given(expected, metrics::window(top, k))
}

/// The ideal is a gain for every expected hit, as far as `k` allows; there is none where
/// nothing came back.
pub proof fn the_ideal_is_a_gain_for_each(expected: Seq<ExpectedHit>, top: Seq<HitRecord>, k: nat)
    ensures
        top.len() == 0 ==> metrics::ideal_gains(expected, top, k) == 0,
        top.len() > 0 && expected.len() <= k ==> metrics::ideal_gains(expected, top, k)
            == expected.len(),
        top.len() > 0 && k <= expected.len() ==> metrics::ideal_gains(expected, top, k) == k,
{
}

/// The metrics of a query are taken at every depth that was asked for, in the order in which
/// they were asked for, each at its own depth: recall counts what came back among the first
/// hits up to that depth, and gains come from these hits alone.
pub proof fn metrics_are_taken_at_every_depth(
    expected: Seq<ExpectedHit>,
    top: Seq<HitRecord>,
    ks: Seq<usize>,
    r: QueryCounts,
    i: int,
)
    requires
        metrics::counts_of(expected, top, ks, r),
        0 <= i < ks.len(),
        expected.len() > 0,
        top.len() > 0,
    ensures
        r.recall_at_k@.len() == ks.len(),
        r.recall_at_k@[i].0 == ks[i],
        r.recall_at_k@[i].1.numerator == Seq::new(expected.len(), |j: int| j).filter(
            found_within(expected, top, ks[i] as nat),
        ).len(),
        r.recall_at_k@[i].1.denominator == expected.len(),
        r.ndcg_at_k@.len() == ks.len(),
        r.ndcg_at_k@[i].0 == ks[i],
        r.ndcg_at_k@[i].1.ideal == (if expected.len() < ks[i] {
            expected.len() as int
        } else {
            ks[i] as int
        }),
        r.ndcg_at_k@[i].1.ranks@ == metrics::gain_ranks(expected, top, ks[i] as nat),
        r.reciprocal_rank.numerator as nat == metrics::first_rank(expected, top).0,
        r.reciprocal_rank.denominator as nat == metrics::first_rank(expected, top).1,
{
    recall_counts_the_expected_that_came_back(expected, top, ks[i] as nat);
    assert(r.recall_at_k@[i].0 == ks[i]);
    assert(r.ndcg_at_k@[i].0 == ks[i]);
}

/// Headings are compared without the whitespace around them and in lower case.
pub proof fn headings_are_compared_trimmed_and_in_lower_case(s: Seq<char>)
    ensures
        metrics::normalized(s) == metrics::lowercased(text::trimmed(s)),
{
}

} // verus!
