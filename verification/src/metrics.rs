//! What the metrics of retrieval count: which expected hits came back, and at
//! which ranks.

use crate::float::Float32;
use crate::text;
use crate::text::{same_text, trim};
use vstd::prelude::*;

verus! {

/// A hit that a query should bring. Without a heading any part of the document
/// will do.
#[derive(Debug, Clone, PartialEq, Eq)]
pub struct ExpectedHit {
    pub path: String,
    pub heading: Option<String>,
}

/// A hit that a query brought. Ranks start at 1.
#[derive(Debug, Clone)]
pub struct HitRecord {
    pub rank: usize,
    pub path: String,
    pub heading: Option<String>,
    pub score: Float32,
}

/// What `str::to_lowercase` returns.
pub uninterp spec fn lowercased(s: Seq<char>) -> Seq<char>;

/// A text of ASCII characters.
pub open spec fn ascii_text(s: Seq<char>) -> bool {
    forall|i: int| 0 <= i < s.len() ==> (#[trigger] s[i] as u32) < 0x80
}

/// `str::to_lowercase`: the lowercase of a text by Unicode's rules, which is named.
/// A text of ASCII characters has its letters from A to Z replaced.
pub assume_specification[ str::to_lowercase ](s: &str) -> (r: String)
    ensures
        r@ == lowercased(s@),
        ascii_text(s@) ==> r@ == s@.map_values(|c: char| text::ascii_lower(c)),
;

/// A heading as it is compared: without white space around it, in lowercase.
pub open spec fn normalized(s: Seq<char>) -> Seq<char> {
    lowercased(text::trimmed(s))
}

/// A heading as it is compared.
pub fn normalize_heading(s: &str) -> (r: String)
    ensures
        r@ == normalized(s@),
        ascii_text(text::trimmed(s@)) ==> r@ == text::trimmed(s@).map_values(
            |c: char| text::ascii_lower(c),
        ),
{
    trim(s).to_lowercase()
}

/// Whether a hit is the expected one, given whether their headings compare equal.
pub open spec fn hit_given(e: ExpectedHit, h: HitRecord, headings_equal: bool) -> bool {
    e.path@ == h.path@ && (e.heading is None || (h.heading is Some && headings_equal))
}

/// Whether a hit is the expected one.
pub open spec fn hits(e: ExpectedHit, h: HitRecord) -> bool {
    hit_given(
        e,
        h,
        e.heading is Some && h.heading is Some && normalized(e.heading->0@) == normalized(
            h.heading->0@,
        ),
    )
}

/// Whether a hit is the expected one, given whether their headings compare equal.
pub fn is_hit_given(expected: &ExpectedHit, hit: &HitRecord, headings_equal: bool) -> (r: bool)
    ensures
        r == hit_given(*expected, *hit, headings_equal),
{
    same_text(expected.path.as_str(), hit.path.as_str()) && (expected.heading.is_none() || (
    hit.heading.is_some() && headings_equal))
}

/// Whether a hit is the expected one: the same path and, where a heading is
/// expected, the same heading up to case and white space around it.
pub fn is_hit(expected: &ExpectedHit, hit: &HitRecord) -> (r: bool)
    ensures
        r == hits(*expected, *hit),
{
    let headings_equal = match (&expected.heading, &hit.heading) {
        (Some(e), Some(h)) => same_text(
            normalize_heading(e.as_str()).as_str(),
            normalize_heading(h.as_str()).as_str(),
        ),
        _ => false,
    };
    is_hit_given(expected, hit, headings_equal)
}

/// An exact fraction.
#[derive(Debug, Clone, Copy, PartialEq, Eq, Structural)]
pub struct Ratio {
    pub numerator: usize,
    pub denominator: usize,
}

/// Whether an expected hit is among the hits.
pub open spec fn found(e: ExpectedHit, top: Seq<HitRecord>) -> bool {
    exists|j: int| 0 <= j < top.len() && #[trigger] hits(e, top[j])
}

/// The first `k` of the hits.
pub open spec fn window(top: Seq<HitRecord>, k: nat) -> Seq<HitRecord> {
    if k < top.len() {
        top.take(k as int)
    } else {
        top
    }
}

/// How many of the expected hits are among the hits.
pub open spec fn found_count(expected: Seq<ExpectedHit>, top: Seq<HitRecord>) -> nat
    decreases expected.len(),
{
    if expected.len() == 0 {
        0
    } else {
        found_count(expected.drop_last(), top) + if found(expected.last(), top) {
            1nat
        } else {
            0nat
        }
    }
}

fn found_within(e: &ExpectedHit, top: &[HitRecord], k: usize) -> (r: bool)
    ensures
        r == found(*e, window(top@, k as nat)),
{
    let mut j: usize = 0;
    while j < top.len() && j < k
        invariant
            j <= top@.len(),
            j <= k,
            forall|i: int| 0 <= i < j ==> !hits(*e, #[trigger] top@[i]),
        decreases top@.len() - j,
    {
        if is_hit(e, &top[j]) {
            assert(window(top@, k as nat)[j as int] == top@[j as int]);
            return true;
        }
        j += 1;
    }
    assert forall|i: int| 0 <= i < window(top@, k as nat).len() implies !hits(
        *e,
        #[trigger] window(top@, k as nat)[i],
    ) by {
        assert(window(top@, k as nat)[i] == top@[i]);
    }
    false
}

/// The share of the expected hits that are among the first `k`; nothing where
/// there are no expected hits or no hits.
pub open spec fn recall(expected: Seq<ExpectedHit>, top: Seq<HitRecord>, k: nat) -> (nat, nat) {
    if expected.len() == 0 || top.len() == 0 {
        (0, 1)
    } else {
        (found_count(expected, window(top, k)), expected.len())
    }
}

pub fn recall_at_k(expected: &[ExpectedHit], top: &[HitRecord], k: usize) -> (r: Ratio)
    ensures
        (r.numerator as nat, r.denominator as nat) == recall(expected@, top@, k as nat),
{
    if expected.len() == 0 || top.len() == 0 {
        return Ratio { numerator: 0, denominator: 1 };
    }
    let mut matched: usize = 0;
    let mut i: usize = 0;
    assert(expected@.take(0) =~= Seq::empty());
    while i < expected.len()
        invariant
            i <= expected@.len(),
            matched <= i,
            matched == found_count(expected@.take(i as int), window(top@, k as nat)),
        decreases expected@.len() - i,
    {
        assert(expected@.take(i + 1).drop_last() =~= expected@.take(i as int));
        if found_within(&expected[i], top, k) {
            matched += 1;
        }
        i += 1;
    }
    assert(expected@.take(i as int) =~= expected@);
    Ratio { numerator: matched, denominator: expected.len() }
}

proof fn found_grows(e: ExpectedHit, top: Seq<HitRecord>, j: nat, k: nat)
    requires
        j <= k,
        found(e, window(top, j)),
    ensures
        found(e, window(top, k)),
{
    let w = choose|i: int| 0 <= i < window(top, j).len() && #[trigger] hits(e, window(top, j)[i]);
    assert(window(top, k)[w] == window(top, j)[w]);
}

proof fn found_count_grows(expected: Seq<ExpectedHit>, top: Seq<HitRecord>, j: nat, k: nat)
    requires
        j <= k,
    ensures
        found_count(expected, window(top, j)) <= found_count(expected, window(top, k))
            <= expected.len(),
    decreases expected.len(),
{
    if expected.len() > 0 {
        found_count_grows(expected.drop_last(), top, j, k);
        if found(expected.last(), window(top, j)) {
            found_grows(expected.last(), top, j, k);
        }
    }
}

/// A recall lies between nothing and everything, and does not fall when more of
/// the hits are looked at.
pub proof fn recall_is_a_share_and_grows(
    expected: Seq<ExpectedHit>,
    top: Seq<HitRecord>,
    j: nat,
    k: nat,
)
    requires
        j <= k,
    ensures
        recall(expected, top, j).0 <= recall(expected, top, k).0 <= recall(expected, top, k).1,
        recall(expected, top, j).1 == recall(expected, top, k).1 > 0,
        recall(expected, top, 0).0 == 0,
{
    found_count_grows(expected, top, j, k);
    nothing_in_nothing(expected, top);
}

proof fn nothing_in_nothing(expected: Seq<ExpectedHit>, top: Seq<HitRecord>)
    ensures
        found_count(expected, window(top, 0)) == 0,
    decreases expected.len(),
{
    if expected.len() > 0 {
        nothing_in_nothing(expected.drop_last(), top);
    }
}

/// Whether a hit is any of the expected ones.
pub open spec fn wanted(expected: Seq<ExpectedHit>, h: HitRecord) -> bool {
    exists|i: int| 0 <= i < expected.len() && #[trigger] hits(expected[i], h)
}

/// The first hit that is any of the expected ones.
pub open spec fn first_wanted(expected: Seq<ExpectedHit>, top: Seq<HitRecord>) -> Option<HitRecord>
    decreases top.len(),
{
    if top.len() == 0 {
        None
    } else if wanted(expected, top[0]) {
        Some(top[0])
    } else {
        first_wanted(expected, top.skip(1))
    }
}

/// One over the rank of the first expected hit; nothing without one, or where
/// its rank is 0.
pub open spec fn first_rank(expected: Seq<ExpectedHit>, top: Seq<HitRecord>) -> (nat, nat) {
    match first_wanted(expected, top) {
        Some(h) => if h.rank == 0 {
            (0, 1)
        } else {
            (1, h.rank as nat)
        },
        None => (0, 1),
    }
}

fn is_wanted(expected: &[ExpectedHit], h: &HitRecord) -> (r: bool)
    ensures
        r == wanted(expected@, *h),
{
    let mut i: usize = 0;
    while i < expected.len()
        invariant
            i <= expected@.len(),
            forall|k: int| 0 <= k < i ==> !hits(#[trigger] expected@[k], *h),
        decreases expected@.len() - i,
    {
        if is_hit(&expected[i], h) {
            return true;
        }
        i += 1;
    }
    false
}

fn first_hit_rank(expected: &[ExpectedHit], top: &[HitRecord]) -> (r: Option<usize>)
    ensures
        r == (match first_wanted(expected@, top@) {
            Some(h) => Some(h.rank),
            None => None,
        }),
{
    let mut j: usize = 0;
    assert(top@.skip(0) =~= top@);
    while j < top.len()
        invariant
            j <= top@.len(),
            first_wanted(expected@, top@) == first_wanted(expected@, top@.skip(j as int)),
        decreases top@.len() - j,
    {
        assert(top@.skip(j as int)[0] == top@[j as int]);
        assert(top@.skip(j as int).skip(1) =~= top@.skip(j + 1));
        if is_wanted(expected, &top[j]) {
            return Some(top[j].rank);
        }
        j += 1;
    }
    None
}

/// One over the rank of the first expected hit; nothing without one, or where
/// its rank is 0.
pub fn reciprocal_rank(expected: &[ExpectedHit], top: &[HitRecord]) -> (r: Ratio)
    ensures
        (r.numerator as nat, r.denominator as nat) == first_rank(expected@, top@),
{
    match first_hit_rank(expected, top) {
        Some(rank) => if rank == 0 {
            Ratio { numerator: 0, denominator: 1 }
        } else {
            Ratio { numerator: 1, denominator: rank }
        },
        None => Ratio { numerator: 0, denominator: 1 },
    }
}

/// Whether the first expected hit has rank 0, which no hit should have, since ranks
/// start at 1. Its reciprocal rank then counts as nothing.
pub fn first_hit_is_unranked(expected: &[ExpectedHit], top: &[HitRecord]) -> (r: bool)
    ensures
        r == (first_wanted(expected@, top@) matches Some(h) && h.rank == 0),
{
    match first_hit_rank(expected, top) {
        Some(rank) => rank == 0,
        None => false,
    }
}

/// A reciprocal rank lies between 0 and 1, and is not 0 exactly where an expected
/// hit came back, for hits whose ranks start at 1.
pub proof fn reciprocal_rank_says_whether_anything_came_back(
    expected: Seq<ExpectedHit>,
    top: Seq<HitRecord>,
)
    requires
        forall|j: int| 0 <= j < top.len() ==> (#[trigger] top[j]).rank > 0,
    ensures
        first_rank(expected, top).0 <= first_rank(expected, top).1,
        first_rank(expected, top).1 > 0,
        first_rank(expected, top).0 > 0 <==> exists|j: int|
            0 <= j < top.len() && wanted(expected, #[trigger] top[j]),
{
    first_wanted_is_wanted(expected, top);
}

proof fn first_wanted_is_wanted(expected: Seq<ExpectedHit>, top: Seq<HitRecord>)
    ensures
        first_wanted(expected, top) matches Some(h) ==> exists|j: int|
            0 <= j < top.len() && #[trigger] top[j] == h && wanted(expected, top[j]),
        first_wanted(expected, top) is None ==> forall|j: int|
            0 <= j < top.len() ==> !wanted(expected, #[trigger] top[j]),
    decreases top.len(),
{
    if top.len() > 0 && !wanted(expected, top[0]) {
        first_wanted_is_wanted(expected, top.skip(1));
        if let Some(h) = first_wanted(expected, top) {
            let j = choose|j: int|
                0 <= j < top.skip(1).len() && #[trigger] top.skip(1)[j] == h && wanted(
                    expected,
                    top.skip(1)[j],
                );
            assert(top[j + 1] == top.skip(1)[j]);
        } else {
            assert forall|j: int| 0 <= j < top.len() implies !wanted(
                expected,
                #[trigger] top[j],
            ) by {
                if j > 0 {
                    assert(top.skip(1)[j - 1] == top[j]);
                }
            }
        }
    }
}

/// Whether an expected hit that is still free is this hit.
pub open spec fn open_for(
    expected: Seq<ExpectedHit>,
    consumed: Seq<bool>,
    h: HitRecord,
    i: int,
) -> bool {
    0 <= i < expected.len() && !consumed[i] && hits(expected[i], h)
}

/// Whether the first place goes before the second: one with a heading before one
/// without, and else the earlier.
pub open spec fn goes_before(expected: Seq<ExpectedHit>, i: int, j: int) -> bool {
    if (expected[i].heading is None) == (expected[j].heading is None) {
        i < j
    } else {
        expected[i].heading is Some
    }
}

/// The expected hit that a hit is taken for: of those that are free the one that
/// goes before all others.
pub open spec fn taken_for(
    expected: Seq<ExpectedHit>,
    consumed: Seq<bool>,
    h: HitRecord,
    i: int,
) -> bool {
    &&& open_for(expected, consumed, h, i)
    &&& forall|j: int|
        #[trigger] open_for(expected, consumed, h, j) && j != i ==> goes_before(expected, i, j)
}

/// Which expected hits are used up by the hits, and the ranks of the hits that
/// used one up.
pub open spec fn matched(expected: Seq<ExpectedHit>, top: Seq<HitRecord>) -> (
    Seq<bool>,
    Seq<usize>,
)
    decreases top.len(),
{
    if top.len() == 0 {
        (Seq::new(expected.len(), |i: int| false), Seq::empty())
    } else {
        let (consumed, ranks) = matched(expected, top.drop_last());
        let h = top.last();
        if exists|i: int| taken_for(expected, consumed, h, i) {
            let i = choose|i: int| taken_for(expected, consumed, h, i);
            (consumed.update(i, true), ranks.push(h.rank))
        } else {
            (consumed, ranks)
        }
    }
}

/// What a normalised discounted cumulative gain is made of: a gain for each of
/// `ranks`, over the gains for the ranks from 1 to `ideal`.
#[derive(Debug, Clone)]
pub struct Gains {
    pub ranks: Vec<usize>,
    pub ideal: usize,
}

/// The ranks that bring a gain among the first `k`.
pub open spec fn gain_ranks(expected: Seq<ExpectedHit>, top: Seq<HitRecord>, k: nat) -> Seq<usize> {
    matched(expected, window(top, k)).1
}

/// How many gains the best order would bring.
pub open spec fn ideal_gains(expected: Seq<ExpectedHit>, top: Seq<HitRecord>, k: nat) -> nat {
    if top.len() == 0 {
        0
    } else if expected.len() < k {
        expected.len()
    } else {
        k
    }
}

proof fn taken_for_is_unique(
    expected: Seq<ExpectedHit>,
    consumed: Seq<bool>,
    h: HitRecord,
    i: int,
    j: int,
)
    requires
        taken_for(expected, consumed, h, i),
        taken_for(expected, consumed, h, j),
    ensures
        i == j,
{
    if i != j {
        assert(goes_before(expected, i, j));
        assert(goes_before(expected, j, i));
    }
}

fn choose_expected(expected: &[ExpectedHit], consumed: &Vec<bool>, h: &HitRecord) -> (r: Option<
    usize,
>)
    requires
        consumed@.len() == expected@.len(),
    ensures
        r matches Some(i) ==> taken_for(expected@, consumed@, *h, i as int),
        r is None ==> forall|i: int| !#[trigger] open_for(expected@, consumed@, *h, i),
{
    let mut best: Option<usize> = None;
    let mut i: usize = 0;
    while i < expected.len()
        invariant
            i <= expected@.len(),
            consumed@.len() == expected@.len(),
            best is None ==> forall|j: int|
                j < i ==> !#[trigger] open_for(expected@, consumed@, *h, j),
            best matches Some(b) ==> {
                &&& b < i
                &&& open_for(expected@, consumed@, *h, b as int)
                &&& forall|j: int|
                    j < i && #[trigger] open_for(expected@, consumed@, *h, j) && j != b
                        ==> goes_before(expected@, b as int, j)
            },
        decreases expected@.len() - i,
    {
        if !consumed[i] && is_hit(&expected[i], h) {
            assert(open_for(expected@, consumed@, *h, i as int));
            match best {
                Some(b) => {
                    if expected[b].heading.is_none() && expected[i].heading.is_some() {
                        best = Some(i);
                    }
                },
                None => {
                    best = Some(i);
                },
            }
        } else {
            assert(!open_for(expected@, consumed@, *h, i as int));
        }
        i += 1;
    }
    best
}

/// What the gain at `k` is made of. Each hit is taken for at most one expected
/// hit and each expected hit is used up at most once, in the order of the hits.
pub fn ndcg_at_k(expected: &[ExpectedHit], top: &[HitRecord], k: usize) -> (r: Gains)
    ensures
        r.ranks@ == gain_ranks(expected@, top@, k as nat),
        r.ideal == ideal_gains(expected@, top@, k as nat),
{
    let mut consumed: Vec<bool> = Vec::new();
    let mut e: usize = 0;
    while e < expected.len()
        invariant
            e <= expected@.len(),
            consumed@ == Seq::new(e as nat, |i: int| false),
        decreases expected@.len() - e,
    {
        consumed.push(false);
        assert(consumed@ =~= Seq::new((e + 1) as nat, |i: int| false));
        e += 1;
    }
    let mut ranks: Vec<usize> = Vec::new();
    let mut j: usize = 0;
    assert(top@.take(0) =~= Seq::empty());
    while j < top.len() && j < k
        invariant
            j <= top@.len(),
            j <= k,
            consumed@.len() == expected@.len(),
            (consumed@, ranks@) == matched(expected@, top@.take(j as int)),
        decreases top@.len() - j,
    {
        assert(top@.take(j + 1).drop_last() =~= top@.take(j as int));
        assert(top@.take(j + 1).last() == top@[j as int]);
        let ghost before = consumed@;
        match choose_expected(expected, &consumed, &top[j]) {
            Some(i) => {
                proof {
                    let c = choose|c: int| taken_for(expected@, before, top@[j as int], c);
                    taken_for_is_unique(expected@, before, top@[j as int], i as int, c);
                }
                consumed.set(i, true);
                ranks.push(top[j].rank);
            },
            None => {
                assert forall|i: int| !#[trigger] taken_for(
                    expected@,
                    before,
                    top@[j as int],
                    i,
                ) by {
                    assert(!open_for(expected@, before, top@[j as int], i));
                }
            },
        }
        j += 1;
    }
    assert(window(top@, k as nat) =~= top@.take(j as int));
    let ideal: usize = if top.len() == 0 {
        0
    } else if expected.len() < k {
        expected.len()
    } else {
        k
    };
    Gains { ranks, ideal }
}

/// The number of places that are used up.
pub open spec fn used(consumed: Seq<bool>) -> nat
    decreases consumed.len(),
{
    if consumed.len() == 0 {
        0
    } else {
        used(consumed.drop_last()) + if consumed.last() {
            1nat
        } else {
            0nat
        }
    }
}

proof fn using_one_more(consumed: Seq<bool>, i: int)
    requires
        0 <= i < consumed.len(),
        !consumed[i],
    ensures
        used(consumed.update(i, true)) == used(consumed) + 1,
    decreases consumed.len(),
{
    let after = consumed.update(i, true);
    if i == consumed.len() - 1 {
        assert(after.drop_last() =~= consumed.drop_last());
    } else {
        using_one_more(consumed.drop_last(), i);
        assert(after.drop_last() =~= consumed.drop_last().update(i, true));
    }
}

proof fn used_is_bounded(consumed: Seq<bool>)
    ensures
        used(consumed) <= consumed.len(),
    decreases consumed.len(),
{
    if consumed.len() > 0 {
        used_is_bounded(consumed.drop_last());
    }
}

proof fn unused_is_none(n: nat)
    ensures
        used(Seq::new(n, |i: int| false)) == 0,
    decreases n,
{
    if n > 0 {
        unused_is_none((n - 1) as nat);
        assert(Seq::new(n, |i: int| false).drop_last() =~= Seq::new(
            (n - 1) as nat,
            |i: int| false,
        ));
    }
}

proof fn matched_ranks(expected: Seq<ExpectedHit>, top: Seq<HitRecord>)
    requires
        forall|j: int| 0 <= j < top.len() ==> (#[trigger] top[j]).rank == j + 1,
    ensures
        matched(expected, top).0.len() == expected.len(),
        matched(expected, top).1.len() == used(matched(expected, top).0),
        matched(expected, top).1.len() <= top.len(),
        forall|i: int|
            0 <= i < matched(expected, top).1.len() ==> i + 1 <= #[trigger] matched(
                expected,
                top,
            ).1[i] <= top.len(),
        forall|i: int, j: int|
            0 <= i < j < matched(expected, top).1.len() ==> #[trigger] matched(expected, top).1[i]
                < #[trigger] matched(expected, top).1[j],
    decreases top.len(),
{
    if top.len() == 0 {
        unused_is_none(expected.len());
    } else {
        matched_ranks(expected, top.drop_last());
        let (consumed, ranks) = matched(expected, top.drop_last());
        let h = top.last();
        if exists|i: int| taken_for(expected, consumed, h, i) {
            let i = choose|i: int| taken_for(expected, consumed, h, i);
            using_one_more(consumed, i);
        }
    }
}

/// For hits that are ranked from 1 on, there are no more gains than the best order
/// would bring, they come from different ranks, and the gain in each place comes
/// from a rank that is no better than that place. So the sum of the gains is at
/// most that of the best order.
pub proof fn gains_are_at_most_ideal(expected: Seq<ExpectedHit>, top: Seq<HitRecord>, k: nat)
    requires
        forall|j: int| 0 <= j < top.len() ==> (#[trigger] top[j]).rank == j + 1,
    ensures
        gain_ranks(expected, top, k).len() <= ideal_gains(expected, top, k),
        forall|i: int|
            0 <= i < gain_ranks(expected, top, k).len() ==> i + 1 <= #[trigger] gain_ranks(
                expected,
                top,
                k,
            )[i] <= k,
        forall|i: int, j: int|
            0 <= i < j < gain_ranks(expected, top, k).len() ==> #[trigger] gain_ranks(
                expected,
                top,
                k,
            )[i] < #[trigger] gain_ranks(expected, top, k)[j],
{
    let w = window(top, k);
    assert forall|j: int| 0 <= j < w.len() implies (#[trigger] w[j]).rank == j + 1 by {
        assert(w[j] == top[j]);
    }
    matched_ranks(expected, w);
    used_is_bounded(matched(expected, w).0);
}

proof fn no_gain_without_a_find(expected: Seq<ExpectedHit>, top: Seq<HitRecord>)
    ensures
        matched(expected, top).0.len() == expected.len(),
        matched(expected, top).1.len() == 0 ==> forall|i: int|
            0 <= i < expected.len() ==> !#[trigger] matched(expected, top).0[i] && !found(
                expected[i],
                top,
            ),
        matched(expected, top).1.len() > 0 ==> exists|i: int|
            0 <= i < expected.len() && #[trigger] found(expected[i], top),
    decreases top.len(),
{
    if top.len() > 0 {
        let init = top.drop_last();
        no_gain_without_a_find(expected, init);
        let (consumed, ranks) = matched(expected, init);
        let h = top.last();
        if ranks.len() > 0 {
            let i = choose|i: int| 0 <= i < expected.len() && #[trigger] found(expected[i], init);
            let j = choose|j: int| 0 <= j < init.len() && #[trigger] hits(expected[i], init[j]);
            assert(top[j] == init[j]);
            assert(found(expected[i], top));
        } else if exists|i: int| taken_for(expected, consumed, h, i) {
            let i = choose|i: int| taken_for(expected, consumed, h, i);
            assert(hits(expected[i], top[top.len() - 1]));
            assert(found(expected[i], top));
        } else {
            assert forall|i: int| 0 <= i < expected.len() implies !found(expected[i], top) by {
                if found(expected[i], top) {
                    assert(!matched(expected, init).0[i]);
                    let j = choose|j: int|
                        0 <= j < top.len() && #[trigger] hits(expected[i], top[j]);
                    if j < init.len() {
                        assert(init[j] == top[j]);
                        assert(found(expected[i], init));
                    } else {
                        assert(open_for(expected, consumed, h, i));
                        first_open_is_taken(expected, consumed, h);
                    }
                    assert(false);
                }
            }
        }
    }
}

proof fn least_open(
    expected: Seq<ExpectedHit>,
    consumed: Seq<bool>,
    h: HitRecord,
    n: int,
) -> (best: Option<int>)
    requires
        0 <= n <= expected.len(),
    ensures
        best is None ==> forall|j: int| j < n ==> !#[trigger] open_for(expected, consumed, h, j),
        best matches Some(b) ==> b < n && open_for(expected, consumed, h, b) && forall|j: int|
            j < n && #[trigger] open_for(expected, consumed, h, j) && j != b ==> goes_before(
                expected,
                b,
                j,
            ),
    decreases n,
{
    if n == 0 {
        None
    } else {
        let best = least_open(expected, consumed, h, n - 1);
        if open_for(expected, consumed, h, n - 1) {
            match best {
                Some(b) => if expected[b].heading is None && expected[n - 1].heading is Some {
                    Some(n - 1)
                } else {
                    Some(b)
                },
                None => Some(n - 1),
            }
        } else {
            best
        }
    }
}

proof fn first_open_is_taken(expected: Seq<ExpectedHit>, consumed: Seq<bool>, h: HitRecord)
    requires
        exists|i: int| #[trigger] open_for(expected, consumed, h, i),
    ensures
        exists|i: int| taken_for(expected, consumed, h, i),
{
    let best = least_open(expected, consumed, h, expected.len() as int);
    let i = choose|i: int| #[trigger] open_for(expected, consumed, h, i);
    assert(best is Some);
    assert(taken_for(expected, consumed, h, best->0));
}

proof fn counting_none(expected: Seq<ExpectedHit>, top: Seq<HitRecord>)
    ensures
        found_count(expected, top) == 0 <==> forall|i: int|
            0 <= i < expected.len() ==> !#[trigger] found(expected[i], top),
    decreases expected.len(),
{
    if expected.len() > 0 {
        let init = expected.drop_last();
        counting_none(init, top);
        if found_count(expected, top) == 0 {
            assert forall|i: int| 0 <= i < expected.len() implies !#[trigger] found(
                expected[i],
                top,
            ) by {
                if i < init.len() {
                    assert(init[i] == expected[i]);
                }
            }
        } else if forall|i: int|
            0 <= i < expected.len() ==> !#[trigger] found(expected[i], top) {
            assert forall|i: int| 0 <= i < init.len() implies !#[trigger] found(
                init[i],
                top,
            ) by {
                assert(init[i] == expected[i]);
            }
            assert(expected.last() == expected[expected.len() - 1]);
        }
    }
}

/// There is a gain exactly where the recall is not nothing.
pub proof fn gains_come_with_recall(expected: Seq<ExpectedHit>, top: Seq<HitRecord>, k: nat)
    ensures
        gain_ranks(expected, top, k).len() > 0 <==> recall(expected, top, k).0 > 0,
{
    let w = window(top, k);
    no_gain_without_a_find(expected, w);
    counting_none(expected, w);
    if gain_ranks(expected, top, k).len() == 0 {
        assert forall|i: int| 0 <= i < expected.len() implies !#[trigger] found(
            expected[i],
            w,
        ) by {
            assert(!matched(expected, w).0[i]);
        }
    }
}

/// What the metrics of one query are made of, for each `k` in turn.
#[derive(Debug, Clone)]
pub struct QueryCounts {
    pub recall_at_k: Vec<(usize, Ratio)>,
    pub reciprocal_rank: Ratio,
    pub ndcg_at_k: Vec<(usize, Gains)>,
}

/// `r` is what the metrics of one query are made of.
pub open spec fn counts_of(
    expected: Seq<ExpectedHit>,
    top: Seq<HitRecord>,
    ks: Seq<usize>,
    r: QueryCounts,
) -> bool {
    &&& r.recall_at_k@.len() == ks.len()
    &&& forall|i: int|
        0 <= i < ks.len() ==> (#[trigger] r.recall_at_k@[i]).0 == ks[i] && (
            r.recall_at_k@[i].1.numerator as nat,
            r.recall_at_k@[i].1.denominator as nat,
        ) == recall(expected, top, ks[i] as nat)
    &&& (r.reciprocal_rank.numerator as nat, r.reciprocal_rank.denominator as nat) == first_rank(
        expected,
        top,
    )
    &&& r.ndcg_at_k@.len() == ks.len()
    &&& forall|i: int|
        0 <= i < ks.len() ==> (#[trigger] r.ndcg_at_k@[i]).0 == ks[i]
            && r.ndcg_at_k@[i].1.ranks@ == gain_ranks(expected, top, ks[i] as nat)
            && r.ndcg_at_k@[i].1.ideal == ideal_gains(expected, top, ks[i] as nat)
}

/// What the metrics of one query are made of.
pub fn compute_query_metrics(
    expected: &[ExpectedHit],
    top: &[HitRecord],
    k_values: &[usize],
) -> (r: QueryCounts)
    ensures
        counts_of(expected@, top@, k_values@, r),
        r.recall_at_k@.len() == k_values@.len(),
        forall|i: int|
            0 <= i < k_values@.len() ==> (#[trigger] r.recall_at_k@[i]).0 == k_values@[i] && (
                r.recall_at_k@[i].1.numerator as nat,
                r.recall_at_k@[i].1.denominator as nat,
            ) == recall(expected@, top@, k_values@[i] as nat),
        (r.reciprocal_rank.numerator as nat, r.reciprocal_rank.denominator as nat) == first_rank(
            expected@,
            top@,
        ),
        r.ndcg_at_k@.len() == k_values@.len(),
        forall|i: int|
            0 <= i < k_values@.len() ==> (#[trigger] r.ndcg_at_k@[i]).0 == k_values@[i]
                && r.ndcg_at_k@[i].1.ranks@ == gain_ranks(expected@, top@, k_values@[i] as nat)
                && r.ndcg_at_k@[i].1.ideal == ideal_gains(expected@, top@, k_values@[i] as nat),
{
    let mut recalls: Vec<(usize, Ratio)> = Vec::new();
    let mut gains: Vec<(usize, Gains)> = Vec::new();
    let mut i: usize = 0;
    while i < k_values.len()
        invariant
            i <= k_values@.len(),
            recalls@.len() == i,
            gains@.len() == i,
            forall|n: int|
                0 <= n < i ==> (#[trigger] recalls@[n]).0 == k_values@[n] && (
                    recalls@[n].1.numerator as nat,
                    recalls@[n].1.denominator as nat,
                ) == recall(expected@, top@, k_values@[n] as nat),
            forall|n: int|
                0 <= n < i ==> (#[trigger] gains@[n]).0 == k_values@[n] && gains@[n].1.ranks@
                    == gain_ranks(expected@, top@, k_values@[n] as nat) && gains@[n].1.ideal
                    == ideal_gains(expected@, top@, k_values@[n] as nat),
        decreases k_values@.len() - i,
    {
        let k = k_values[i];
        recalls.push((k, recall_at_k(expected, top, k)));
        gains.push((k, ndcg_at_k(expected, top, k)));
        i += 1;
    }
    QueryCounts {
        recall_at_k: recalls,
        reciprocal_rank: reciprocal_rank(expected, top),
        ndcg_at_k: gains,
    }
}

} // verus!
