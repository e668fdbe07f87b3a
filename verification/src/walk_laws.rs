//! What a walk finds, said of the answers that it was given: every neighbour becomes a
//! node or is left out for a reason, and nothing else becomes one.

use crate::float::Float32;
use crate::graph;
use crate::graph::{GraphOptions, NodeText, SeedStrategy, TruncationReason, TruncationText};
use crate::text;
use crate::walk;
use crate::walk::{
    NeighbourText, Origin, PhaseState, Question, Seed, WalkLimits, WalkState,
};
use vstd::prelude::*;

verus! {

/// The index that is walked, and where the walk starts: `ask` gives the neighbours of a
/// node and `has` says which chunks have an embedding.
pub struct Setting {
    pub start_path: Seq<char>,
    pub seeds: Seq<Seed>,
    pub more_chunks: bool,
    pub options: GraphOptions,
    pub ask: spec_fn(NodeText) -> Seq<NeighbourText>,
    pub has: spec_fn(i64) -> bool,
}

/// The walk after `n` questions and their answers.
pub open spec fn walk_at(c: Setting, n: nat) -> WalkState {
    walk::walked(
        walk::limits_of(c.options),
        walk::started(c.start_path, c.seeds, c.more_chunks, c.options),
        c.ask,
        c.has,
        n,
    )
}

/// The path is not to be walked to: it is that of the start or one of those excluded.
pub open spec fn off_limits(c: Setting, path: Seq<char>) -> bool {
    path == c.start_path || exists|i: int|
        0 <= i < c.options.exclude_paths@.len() && (#[trigger] c.options.exclude_paths@[i])@
            == path
}

/// The node was there when node `p` had been gone through: it is a seed, or lies below
/// `p` or a node before it.
pub open spec fn known_at(n: NodeText, p: int) -> bool {
    n.parent_id is None || n.parent_id->0 <= p
}

/// Node `n` was found when its parent was asked about.
pub open spec fn found_at_path(n: NodeText, p: int, path: Seq<char>) -> bool {
    n.parent_id is Some && n.parent_id->0 <= p && n.path == path
}

/// An answer before answer `m` about node `p`: answer `k` about node `q`.
pub open spec fn earlier(q: int, k: int, p: int, m: int) -> bool {
    0 <= q && 0 <= k && (q < p || (q == p && k < m))
}

/// Answer `k` about node `q` was taken up and came to nothing, for want of an embedding.
pub open spec fn came_to_nothing(
    c: Setting,
    nodes: Seq<NodeText>,
    q: int,
    k: int,
    path: Seq<char>,
) -> bool {
    &&& k < (c.ask)(nodes[q]).len()
    &&& nodes[q].depth < c.options.depth
    &&& (c.ask)(nodes[q])[k].result.path == path
    &&& !(c.has)((c.ask)(nodes[q])[k].chunk_id)
    &&& !(c.ask)(nodes[q])[k].similarity.below(c.options.min_similarity)
}

/// How many nodes lie below `p`.
pub open spec fn children_of(nodes: Seq<NodeText>, p: int) -> nat {
    nodes.filter(|n: NodeText| n.parent_id == Some(p)).len()
}

/// Node `p` has as many children as it may have, and answer `m` came too late for it: all
/// of them are answers before it.
pub open spec fn came_too_late(
    c: Setting,
    nodes: Seq<NodeText>,
    p: int,
    m: int,
) -> bool {
    &&& children_of(nodes, p) == c.options.fan_out
    &&& forall|n: int|
        0 <= n < nodes.len() && (#[trigger] nodes[n]).parent_id == Some(p) ==> stems_from(
            c,
            nodes,
            n,
            p,
            m,
        )
}

/// Node `n` is one of the first `m` answers about node `p`, as it was answered.
pub open spec fn stems_from(c: Setting, nodes: Seq<NodeText>, n: int, p: int, m: int) -> bool {
    exists|k: int| 0 <= k < m && #[trigger] is_answer(c, nodes, n, p, k)
}

/// Node `n` is answer `k` about node `p`: it lies below it, has an embedding, and carries
/// what was answered.
pub open spec fn is_answer(c: Setting, nodes: Seq<NodeText>, n: int, p: int, k: int) -> bool {
    &&& 0 <= p < n
    &&& nodes[p].depth < c.options.depth
    &&& 0 <= k < (c.ask)(nodes[p]).len()
    &&& {
        let a = (c.ask)(nodes[p])[k];
        let node = nodes[n];
        &&& node.node_id == n
        &&& node.parent_id == Some(p)
        &&& node.depth == nodes[p].depth + 1
        &&& node.chunk_id == a.chunk_id
        &&& node.score == a.similarity
        &&& node.path == a.result.path
        &&& node.heading == a.result.heading
        &&& node.title == a.result.title
        &&& node.topic == a.result.topic
        &&& node.snippet == graph::snippet(a.result.content)
        &&& (c.has)(a.chunk_id)
        &&& !off_limits(c, a.result.path)
        &&& !a.similarity.below(c.options.min_similarity)
    }
}

/// Why answer `m` about node `p` is no further node, or that it is one: its chunk is known
/// already, or is one of the seeds that the centroid stands for; it has no embedding; its
/// path is off limits, or has been taken where paths are to differ; it is not similar
/// enough; or it came too late.
pub open spec fn accounted(c: Setting, nodes: Seq<NodeText>, p: int, m: int) -> bool {
    let a = (c.ask)(nodes[p])[m];
    ||| exists|n: int|
        0 <= n < nodes.len() && (#[trigger] nodes[n]).chunk_id == a.chunk_id && known_at(
            nodes[n],
            p,
        )
    ||| c.options.seed_strategy == SeedStrategy::Centroid && exists|i: int|
        0 <= i < c.seeds.len() && (#[trigger] c.seeds[i]).chunk_id == a.chunk_id
    ||| !(c.has)(a.chunk_id)
    ||| off_limits(c, a.result.path)
    ||| c.options.dedup_by_path && exists|n: int|
        0 <= n < nodes.len() && #[trigger] found_at_path(nodes[n], p, a.result.path)
    ||| c.options.dedup_by_path && exists|q: int, k: int|
        earlier(q, k, p, m) && #[trigger] came_to_nothing(c, nodes, q, k, a.result.path)
    ||| a.similarity.below(c.options.min_similarity)
    ||| came_too_late(c, nodes, p, m)
}

// ---------------------------------------------------------------------------
// What is kept on the way
// ---------------------------------------------------------------------------

spec fn origin(c: Setting) -> Origin {
    walk::origin_of(c.start_path, c.seeds, c.options)
}

spec fn limits(c: Setting) -> WalkLimits {
    walk::limits_of(c.options)
}

/// Why a chunk has been seen: it is that of a node, is a seed of a centroid, has no
/// embedding, or is the one that is waited for.
spec fn seen_for(c: Setting, s: WalkState, pending: Option<i64>, id: i64) -> bool {
    ||| exists|n: int| 0 <= n < s.nodes.len() && (#[trigger] s.nodes[n]).chunk_id == id
    ||| c.options.seed_strategy == SeedStrategy::Centroid && exists|i: int|
        0 <= i < c.seeds.len() && (#[trigger] c.seeds[i]).chunk_id == id
    ||| !(c.has)(id)
    ||| pending == Some(id)
}

spec fn seen_ok(c: Setting, s: WalkState, pending: Option<i64>) -> bool {
    forall|id: i64| #[trigger] s.visited.contains(id) ==> seen_for(c, s, pending, id)
}

/// Why a path is blocked: it is off limits, has been taken by an answer before `(p, m)`,
/// or is that of the one that is waited for.
spec fn blocked_for(
    c: Setting,
    s: WalkState,
    p: int,
    m: int,
    pending: Option<Seq<char>>,
    path: Seq<char>,
) -> bool {
    ||| off_limits(c, path)
    ||| c.options.dedup_by_path && exists|n: int|
        0 <= n < s.nodes.len() && (#[trigger] s.nodes[n]).path == path
            && s.nodes[n].parent_id is Some
    ||| c.options.dedup_by_path && exists|q: int, k: int|
        earlier(q, k, p, m) && q < s.nodes.len() && #[trigger] came_to_nothing(
            c,
            s.nodes,
            q,
            k,
            path,
        )
    ||| c.options.dedup_by_path && pending == Some(path)
}

spec fn blocked_ok(c: Setting, s: WalkState, p: int, m: int, pending: Option<Seq<char>>) -> bool {
    forall|path: Seq<char>| #[trigger]
        s.blocked.contains(path) ==> blocked_for(c, s, p, m, pending, path)
}

/// All answers about node `p` up to `m` are accounted for.
spec fn accounted_to(c: Setting, nodes: Seq<NodeText>, p: int, m: int) -> bool {
    forall|i: int| 0 <= i < m ==> #[trigger] accounted(c, nodes, p, i)
}

/// All answers about the nodes before `h` are accounted for.
spec fn accounted_before(c: Setting, nodes: Seq<NodeText>, h: int) -> bool {
    forall|p: int|
        0 <= p < h && nodes[p].depth < c.options.depth ==> #[trigger] accounted_to(
            c,
            nodes,
            p,
            (c.ask)(nodes[p]).len() as int,
        )
}

/// Every node but the seeds stems from an answer: those below `p` from the first `m`.
spec fn stems_ok(c: Setting, nodes: Seq<NodeText>, p: int, m: int) -> bool {
    &&& forall|n: int|
        origin(c).seeds <= n < nodes.len() ==> {
            let q = (#[trigger] nodes[n]).parent_id->0;
            &&& nodes[n].parent_id is Some
            &&& stems_from(
                c,
                nodes,
                n,
                q,
                if q == p {
                    m
                } else {
                    (c.ask)(nodes[q]).len() as int
                },
            )
        }
    &&& forall|i: int, j: int|
        origin(c).seeds <= i < j < nodes.len() && (#[trigger] nodes[i]).parent_id == (
        #[trigger] nodes[j]).parent_id ==> in_answered_order(c, nodes, i, j)
}

/// Nodes `i` and `j`, below the same node, are answers in this order.
pub open spec fn in_answered_order(c: Setting, nodes: Seq<NodeText>, i: int, j: int) -> bool {
    exists|k: int, m: int|
        k < m && #[trigger] is_answer(c, nodes, i, nodes[i].parent_id->0, k) && #[trigger] is_answer(
            c,
            nodes,
            j,
            nodes[j].parent_id->0,
            m,
        )
}

spec fn complete(c: Setting, s: WalkState) -> bool {
    match s.phase {
        PhaseState::Idle => {
            &&& seen_ok(c, s, None)
            &&& blocked_ok(c, s, s.head as int, 0, None)
            &&& accounted_before(c, s.nodes, s.head as int)
            &&& stems_ok(c, s.nodes, s.head as int, 0)
        },
        PhaseState::Querying { parent } => {
            &&& seen_ok(c, s, None)
            &&& blocked_ok(c, s, parent, 0, None)
            &&& accounted_before(c, s.nodes, parent)
            &&& stems_ok(c, s.nodes, parent, 0)
        },
        PhaseState::Scanning { parent, rest, added } => {
            let all = (c.ask)(s.nodes[parent]);
            let m = all.len() - rest.len();
            &&& 0 <= m
            &&& rest == all.skip(m)
            &&& seen_ok(c, s, None)
            &&& blocked_ok(c, s, parent, m, None)
            &&& accounted_before(c, s.nodes, parent)
            &&& accounted_to(c, s.nodes, parent, m)
            &&& stems_ok(c, s.nodes, parent, m)
        },
        PhaseState::Fetching { parent, candidate, rest, added } => {
            let all = (c.ask)(s.nodes[parent]);
            let m = all.len() - rest.len();
            &&& 1 <= m
            &&& rest == all.skip(m)
            &&& candidate == all[m - 1]
            &&& seen_ok(c, s, Some(candidate.chunk_id))
            &&& blocked_ok(c, s, parent, m - 1, Some(candidate.result.path))
            &&& accounted_before(c, s.nodes, parent)
            &&& accounted_to(c, s.nodes, parent, m - 1)
            &&& stems_ok(c, s.nodes, parent, m - 1)
        },
        PhaseState::Finished => {
            &&& accounted_before(c, s.nodes, s.head as int)
            &&& stems_ok(c, s.nodes, s.head as int, 0)
        },
    }
}

/// Answer `m` about node `p` would have been a node but for the budget: nothing else is
/// against it.
pub open spec fn kept_out_by_the_budget(
    c: Setting,
    nodes: Seq<NodeText>,
    p: int,
    m: int,
) -> bool {
    &&& 0 <= p < nodes.len()
    &&& nodes[p].depth < c.options.depth
    &&& 0 <= m < (c.ask)(nodes[p]).len()
    &&& {
        let a = (c.ask)(nodes[p])[m];
        &&& forall|n: int| 0 <= n < nodes.len() ==> (#[trigger] nodes[n]).chunk_id != a.chunk_id
        &&& !off_limits(c, a.result.path)
        &&& !a.similarity.below(c.options.min_similarity)
        &&& c.options.dedup_by_path ==> forall|n: int|
            0 <= n < nodes.len() && (#[trigger] nodes[n]).parent_id is Some ==> nodes[n].path
                != a.result.path
    }
}

/// The seeds are more than the budget allows.
pub open spec fn too_many_seeds(c: Setting) -> bool {
    let budget = if c.options.max_nodes < 2000 {
        c.options.max_nodes
    } else {
        2000
    };
    match c.options.seed_strategy {
        SeedStrategy::AllChunks => c.seeds.len() > budget,
        SeedStrategy::Centroid => budget == 0,
    }
}

/// Something was lost to the budget: seeds, a node that was not asked about, or a neighbour.
spec fn lost(c: Setting, s: WalkState) -> bool {
    ||| too_many_seeds(c)
    ||| s.knn_queries + walk::waiting(s) < walk::expandable(limits(c), s.nodes, s.head)
    ||| exists|p: int, m: int| #[trigger] kept_out_by_the_budget(c, s.nodes, p, m)
}

proof fn lemma_refused_neighbour(c: Setting, s: WalkState, p: int, m: int)
    requires
        walk::sound(limits(c), origin(c), s),
        0 <= p < s.nodes.len(),
        s.nodes[p].depth < c.options.depth,
        0 <= m < (c.ask)(s.nodes[p]).len(),
        !walk::dropped(limits(c), s, (c.ask)(s.nodes[p])[m]),
    ensures
        kept_out_by_the_budget(c, s.nodes, p, m),
{
    reveal(walk::ids_ok);
    reveal(walk::filters_ok);
    let a = (c.ask)(s.nodes[p])[m];
    lemma_off_limits(c, a.result.path);
    assert forall|n: int| 0 <= n < s.nodes.len() implies (#[trigger] s.nodes[n]).chunk_id
        != a.chunk_id by {
        assert(s.visited.contains(s.nodes[n].chunk_id));
    }
    if c.options.dedup_by_path {
        assert forall|n: int|
            0 <= n < s.nodes.len() && (#[trigger] s.nodes[n]).parent_id is Some implies s.nodes[n].path
            != a.result.path by {
            lemma_parents_behind(limits(c), origin(c), s, n);
            assert(s.blocked.contains(s.nodes[n].path));
        }
    }
}

proof fn lemma_expandable_grows(l: WalkLimits, nodes: Seq<NodeText>, a: nat, b: nat)
    requires
        a <= b,
    ensures
        walk::expandable(l, nodes, a) <= walk::expandable(l, nodes, b),
    decreases b,
{
    if a < b {
        lemma_expandable_grows(l, nodes, a, (b - 1) as nat);
    }
}

/// With the budget spent nothing more is asked, and what was lost stays lost.
proof fn lemma_lost_stays(c: Setting, s: WalkState)
    requires
        lost(c, s),
        s.nodes.len() >= limits(c).max_nodes,
        s.phase is Idle || s.phase is Finished,
    ensures
        lost(c, walk::settled(limits(c), s)),
        walk::settled(limits(c), s).phase is Finished,
    decreases s.nodes.len() - s.head,
{
    let l = limits(c);
    if s.phase is Idle {
        if l.fan_out == 0 || s.head >= s.nodes.len() {
            let t = WalkState { phase: PhaseState::Finished, ..s };
            assert(t.nodes == s.nodes);
            assert(lost(c, t));
        } else if s.nodes[s.head as int].depth >= l.depth {
            let t = WalkState { head: s.head + 1, ..s };
            lemma_expandable_grows(l, s.nodes, s.head, s.head + 1);
            assert(t.nodes == s.nodes);
            assert(lost(c, t));
            lemma_lost_stays(c, t);
        } else {
            let t = WalkState { head: s.head + 1, ..walk::refused(l, s) };
            lemma_expandable_grows(l, s.nodes, s.head, s.head + 1);
            assert(t.nodes == s.nodes);
            assert(lost(c, t));
            lemma_lost_stays(c, t);
        }
    }
}

proof fn lemma_children(nodes: Seq<NodeText>, p: int)
    ensures
        children_of(nodes, p) == walk::children(nodes, p),
    decreases nodes.len(),
{
    reveal(Seq::filter);
    if nodes.len() > 0 {
        lemma_children(nodes.drop_last(), p);
    }
}

proof fn lemma_off_limits(c: Setting, path: Seq<char>)
    ensures
        off_limits(c, path) <==> path == c.start_path || text::texts(
            c.options.exclude_paths@,
        ).to_set().contains(path),
{
    let all = text::texts(c.options.exclude_paths@);
    if all.to_set().contains(path) {
        let i = choose|i: int| 0 <= i < all.len() && all[i] == path;
        assert(c.options.exclude_paths@[i]@ == path);
    }
    if exists|i: int|
        0 <= i < c.options.exclude_paths@.len() && (#[trigger] c.options.exclude_paths@[i])@
            == path {
        let i = choose|i: int|
            0 <= i < c.options.exclude_paths@.len() && (#[trigger] c.options.exclude_paths@[i])@
                == path;
        assert(all[i] == path);
        assert(all.contains(path));
    }
}

/// Every node there is lies below a node that was looked at.
proof fn lemma_parents_behind(l: WalkLimits, o: Origin, s: WalkState, n: int)
    requires
        walk::tree_ok(l, o, s),
        0 <= n < s.nodes.len(),
    ensures
        n >= o.seeds ==> s.nodes[n].parent_id is Some && 0 <= s.nodes[n].parent_id->0 < n
            && s.nodes[n].parent_id->0 < s.head,
        n < o.seeds ==> s.nodes[n].parent_id is None,
        s.head <= s.nodes.len() <= l.max_nodes,
{
    reveal(walk::tree_ok);
    assert(s.nodes[n].node_id == n);
}

/// One more answer that was dropped is accounted for.
proof fn lemma_dropped(c: Setting, s: WalkState, p: int, m: int)
    requires
        walk::tree_ok(limits(c), origin(c), s),
        p == s.head - 1,
        0 <= p,
        0 <= m < (c.ask)(s.nodes[p]).len(),
        seen_ok(c, s, None),
        blocked_ok(c, s, p, m, None),
        walk::dropped(limits(c), s, (c.ask)(s.nodes[p])[m]),
    ensures
        accounted(c, s.nodes, p, m),
{
    let a = (c.ask)(s.nodes[p])[m];
    if s.visited.contains(a.chunk_id) {
        if exists|n: int| 0 <= n < s.nodes.len() && (#[trigger] s.nodes[n]).chunk_id == a.chunk_id {
            let n = choose|n: int|
                0 <= n < s.nodes.len() && (#[trigger] s.nodes[n]).chunk_id == a.chunk_id;
            lemma_parents_behind(limits(c), origin(c), s, n);
            assert(known_at(s.nodes[n], p));
        }
    } else if s.blocked.contains(a.result.path) {
        if exists|n: int|
            0 <= n < s.nodes.len() && (#[trigger] s.nodes[n]).path == a.result.path
                && s.nodes[n].parent_id is Some {
            let n = choose|n: int|
                0 <= n < s.nodes.len() && (#[trigger] s.nodes[n]).path == a.result.path
                    && s.nodes[n].parent_id is Some;
            lemma_parents_behind(limits(c), origin(c), s, n);
            assert(found_at_path(s.nodes[n], p, a.result.path));
        }
    }
}

/// Once nothing more is taken for a node, all answers about it are accounted for.
proof fn lemma_node_done(c: Setting, s: WalkState, p: int, m: int)
    requires
        walk::tree_ok(limits(c), origin(c), s),
        p == s.head - 1,
        0 <= p,
        0 <= m <= (c.ask)(s.nodes[p]).len(),
        accounted_before(c, s.nodes, p),
        accounted_to(c, s.nodes, p, m),
        stems_ok(c, s.nodes, p, m),
        m == (c.ask)(s.nodes[p]).len() || walk::children(s.nodes, p) == c.options.fan_out,
    ensures
        accounted_before(c, s.nodes, s.head as int),
{
    let n = (c.ask)(s.nodes[p]).len() as int;
    assert(accounted_to(c, s.nodes, p, n)) by {
        assert forall|i: int| 0 <= i < n implies #[trigger] accounted(c, s.nodes, p, i) by {
            if i >= m {
                lemma_children(s.nodes, p);
                assert forall|k: int|
                    0 <= k < s.nodes.len() && (#[trigger] s.nodes[k]).parent_id == Some(
                        p,
                    ) implies stems_from(c, s.nodes, k, p, i) by {
                    lemma_parents_behind(limits(c), origin(c), s, k);
                    assert(stems_from(c, s.nodes, k, p, m));
                    let j = choose|j: int|
                        0 <= j < m && #[trigger] is_answer(c, s.nodes, k, p, j);
                    assert(is_answer(c, s.nodes, k, p, j));
                }
                assert(came_too_late(c, s.nodes, p, i));
            }
        }
    }
    assert forall|q: int|
        0 <= q < s.head && s.nodes[q].depth < c.options.depth implies #[trigger] accounted_to(
        c,
        s.nodes,
        q,
        (c.ask)(s.nodes[q]).len() as int,
    ) by {
        if q < p {
        } else {
            assert(q == p);
        }
    }
}

/// What is known of stems when the walk leaves a node.
proof fn lemma_stems_widen(c: Setting, nodes: Seq<NodeText>, p: int, m: int, q: int)
    requires
        stems_ok(c, nodes, p, m),
        m <= (c.ask)(nodes[p]).len(),
        forall|n: int|
            origin(c).seeds <= n < nodes.len() ==> (#[trigger] nodes[n]).parent_id != Some(q),
    ensures
        stems_ok(c, nodes, q, 0),
{
    assert forall|n: int| origin(c).seeds <= n < nodes.len() implies {
        let r = (#[trigger] nodes[n]).parent_id->0;
        &&& nodes[n].parent_id is Some
        &&& stems_from(
            c,
            nodes,
            n,
            r,
            if r == q {
                0
            } else {
                (c.ask)(nodes[r]).len() as int
            },
        )
    } by {
        let r = nodes[n].parent_id->0;
        assert(nodes[n].parent_id is Some);
        if r == p {
            assert(stems_from(c, nodes, n, r, m));
            let k = choose|k: int| 0 <= k < m && #[trigger] is_answer(c, nodes, n, r, k);
            assert(is_answer(c, nodes, n, r, k));
        }
    }
}

proof fn lemma_no_child_ahead(l: WalkLimits, o: Origin, s: WalkState, q: int)
    requires
        walk::tree_ok(l, o, s),
        q >= s.head,
    ensures
        forall|n: int|
            o.seeds <= n < s.nodes.len() ==> (#[trigger] s.nodes[n]).parent_id != Some(q),
{
    assert forall|n: int| o.seeds <= n < s.nodes.len() implies (#[trigger] s.nodes[n]).parent_id
        != Some(q) by {
        lemma_parents_behind(l, o, s, n);
    }
}

proof fn lemma_blocked_later(c: Setting, s: WalkState, p: int, m: int, q: int, k: int)
    requires
        blocked_ok(c, s, p, m, None),
        p < q || (p == q && m <= k),
    ensures
        blocked_ok(c, s, q, k, None),
{
    assert forall|path: Seq<char>| #[trigger] s.blocked.contains(path) implies blocked_for(
        c,
        s,
        q,
        k,
        None,
        path,
    ) by {
        if exists|a: int, b: int|
            earlier(a, b, p, m) && a < s.nodes.len() && #[trigger] came_to_nothing(
                c,
                s.nodes,
                a,
                b,
                path,
            ) {
            let (a, b) = choose|a: int, b: int|
                earlier(a, b, p, m) && a < s.nodes.len() && #[trigger] came_to_nothing(
                    c,
                    s.nodes,
                    a,
                    b,
                    path,
                );
            assert(earlier(a, b, q, k));
            assert(came_to_nothing(c, s.nodes, a, b, path));
        }
    }
}

proof fn lemma_settled_complete(c: Setting, s: WalkState)
    requires
        walk::sound(limits(c), origin(c), s),
        complete(c, s),
        !walk::out_of_budget(s),
    ensures
        walk::out_of_budget(walk::settled(limits(c), s)) || complete(
            c,
            walk::settled(limits(c), s),
        ),
        walk::out_of_budget(walk::settled(limits(c), s)) ==> lost(
            c,
            walk::settled(limits(c), s),
        ),
    decreases
            s.nodes.len() - s.head,
            match s.phase {
                PhaseState::Scanning { parent, rest, added } => rest.len() + 1,
                _ => 0,
            },
{
    let l = limits(c);
    let o = origin(c);
    assert(s.head <= s.nodes.len()) by {
        reveal(walk::tree_ok);
    }
    match s.phase {
        PhaseState::Scanning { parent, rest, added } => {
            let all = (c.ask)(s.nodes[parent]);
            let m = all.len() - rest.len();
            if rest.len() == 0 || added >= l.fan_out {
                let t = WalkState { phase: PhaseState::Idle, ..s };
                lemma_node_done(c, s, parent, m);
                lemma_no_child_ahead(l, o, s, s.head as int);
                lemma_stems_widen(c, s.nodes, parent, m, s.head as int);
                lemma_blocked_later(c, s, parent, m, s.head as int, 0);
                walk::lemma_other_phase(l, o, s, PhaseState::Idle);
                assert(seen_ok(c, t, None));
                assert(blocked_ok(c, t, t.head as int, 0, None));
                lemma_settled_complete(c, t);
            } else if walk::dropped(l, s, rest[0]) {
                let next = PhaseState::Scanning { parent, rest: rest.skip(1), added };
                let t = WalkState { phase: next, ..s };
                assert(rest[0] == all[m]);
                lemma_dropped(c, s, parent, m);
                lemma_blocked_later(c, s, parent, m, parent, m + 1);
                lemma_stems_longer(c, s.nodes, parent, m);
                walk::lemma_other_phase(l, o, s, next);
                assert(rest.skip(1) =~= all.skip(m + 1));
                assert(accounted_to(c, s.nodes, parent, m + 1));
                assert(seen_ok(c, t, None));
                assert(blocked_ok(c, t, parent, m + 1, None));
                lemma_settled_complete(c, t);
            } else if s.nodes.len() >= l.max_nodes {
                let t = WalkState { phase: PhaseState::Idle, ..walk::refused(l, s) };
                walk::lemma_refused_is_out(l, s);
                walk::lemma_settled_keeps(l, t);
                assert(rest[0] == all[m]);
                lemma_refused_neighbour(c, s, parent, m);
                lemma_lost_stays(c, t);
            } else {
                let t = walk::fetching(l, s, parent, rest, added);
                assert(rest[0] == all[m]);
                assert(rest.skip(1) =~= all.skip(m + 1));
                assert(seen_ok(c, t, Some(rest[0].chunk_id))) by {
                    assert forall|id: i64| #[trigger] t.visited.contains(id) && id
                        != rest[0].chunk_id implies s.visited.contains(id) by {}
                }
                assert(blocked_ok(c, t, parent, m, Some(rest[0].result.path))) by {
                    assert forall|path: Seq<char>| #[trigger] t.blocked.contains(path) && !(
                    c.options.dedup_by_path && path == rest[0].result.path) implies s.blocked.contains(
                        path,
                    ) by {}
                }
            }
        },
        PhaseState::Idle => {
            if l.fan_out == 0 || s.head >= s.nodes.len() {
            } else if s.nodes[s.head as int].depth >= l.depth {
                let t = WalkState { head: s.head + 1, ..s };
                let next = (s.head + 1) as int;
                walk::lemma_past_sound(l, o, s);
                assert(t == walk::past(s));
                lemma_blocked_later(c, s, s.head as int, 0, next, 0);
                lemma_no_child_ahead(l, o, s, next);
                lemma_no_child_ahead(l, o, s, s.head as int);
                lemma_stems_widen(c, s.nodes, s.head as int, 0, next);
                assert(accounted_before(c, s.nodes, next));
                assert(seen_ok(c, t, None));
                assert(blocked_ok(c, t, t.head as int, 0, None));
                lemma_settled_complete(c, t);
            } else if s.nodes.len() >= l.max_nodes {
                let t = WalkState { head: s.head + 1, ..walk::refused(l, s) };
                walk::lemma_refused_is_out(l, s);
                walk::lemma_settled_keeps(l, t);
                reveal(walk::counts_ok);
                assert(walk::expandable(l, s.nodes, s.head + 1) == walk::expandable(
                    l,
                    s.nodes,
                    s.head,
                ) + 1);
                assert(lost(c, t));
                lemma_lost_stays(c, t);
            } else {
                let t = WalkState {
                    head: s.head + 1,
                    phase: PhaseState::Querying { parent: s.head as int },
                    ..s
                };
                assert(seen_ok(c, t, None));
                assert(blocked_ok(c, t, s.head as int, 0, None));
                assert(complete(c, t));
            }
        },
        _ => {},
    }
}

/// One more answer may be among those that the nodes stem from.
proof fn lemma_stems_longer(c: Setting, nodes: Seq<NodeText>, p: int, m: int)
    requires
        stems_ok(c, nodes, p, m),
    ensures
        stems_ok(c, nodes, p, m + 1),
{
    assert forall|n: int| origin(c).seeds <= n < nodes.len() implies {
        let r = (#[trigger] nodes[n]).parent_id->0;
        &&& nodes[n].parent_id is Some
        &&& stems_from(
            c,
            nodes,
            n,
            r,
            if r == p {
                m + 1
            } else {
                (c.ask)(nodes[r]).len() as int
            },
        )
    } by {
        let r = nodes[n].parent_id->0;
        assert(nodes[n].parent_id is Some);
        if r == p {
            assert(stems_from(c, nodes, n, r, m));
            let k = choose|k: int| 0 <= k < m && #[trigger] is_answer(c, nodes, n, r, k);
            assert(is_answer(c, nodes, n, r, k));
        }
    }
}

proof fn lemma_answered_complete(c: Setting, s: WalkState)
    requires
        complete(c, s),
        s.phase is Querying,
    ensures
        complete(c, walk::answered(s, (c.ask)(s.nodes[s.phase->Querying_parent]))),
{
    let parent = s.phase->Querying_parent;
    let all = (c.ask)(s.nodes[parent]);
    let t = walk::answered(s, all);
    assert(all.skip(0) =~= all);
    assert(seen_ok(c, t, None));
    assert(blocked_ok(c, t, parent, 0, None));
    assert(accounted_to(c, t.nodes, parent, 0));
}

/// What was accounted for stays so when a node is added below a later one.
proof fn lemma_accounted_grows(
    c: Setting,
    nodes: Seq<NodeText>,
    more: NodeText,
    p: int,
    m: int,
)
    requires
        0 <= p < nodes.len(),
        accounted(c, nodes, p, m),
        more.parent_id != Some(p) || !came_too_late(c, nodes, p, m),
    ensures
        accounted(c, nodes.push(more), p, m),
{
    reveal(Seq::filter);
    let grown = nodes.push(more);
    let a = (c.ask)(nodes[p])[m];
    assert(grown[p] == nodes[p]);
    if exists|n: int|
        0 <= n < nodes.len() && (#[trigger] nodes[n]).chunk_id == a.chunk_id && known_at(
            nodes[n],
            p,
        ) {
        let n = choose|n: int|
            0 <= n < nodes.len() && (#[trigger] nodes[n]).chunk_id == a.chunk_id && known_at(
                nodes[n],
                p,
            );
        assert(grown[n] == nodes[n]);
    }
    if exists|n: int| 0 <= n < nodes.len() && #[trigger] found_at_path(nodes[n], p, a.result.path) {
        let n = choose|n: int|
            0 <= n < nodes.len() && #[trigger] found_at_path(nodes[n], p, a.result.path);
        assert(grown[n] == nodes[n]);
        assert(found_at_path(grown[n], p, a.result.path));
    }
    if exists|q: int, k: int|
        earlier(q, k, p, m) && #[trigger] came_to_nothing(c, nodes, q, k, a.result.path) {
        let (q, k) = choose|q: int, k: int|
            earlier(q, k, p, m) && #[trigger] came_to_nothing(c, nodes, q, k, a.result.path);
        assert(grown[q] == nodes[q]);
        assert(came_to_nothing(c, grown, q, k, a.result.path));
    }
    if came_too_late(c, nodes, p, m) {
        assert(grown.drop_last() =~= nodes);
        assert(children_of(grown, p) == children_of(nodes, p));
        assert forall|n: int|
            0 <= n < grown.len() && (#[trigger] grown[n]).parent_id == Some(p) implies stems_from(
            c,
            grown,
            n,
            p,
            m,
        ) by {
            assert(n < nodes.len());
            assert(nodes[n] == grown[n]);
            let k = choose|k: int| 0 <= k < m && #[trigger] is_answer(c, nodes, n, p, k);
            assert(is_answer(c, grown, n, p, k));
        }
    }
}

proof fn lemma_stems_grow(c: Setting, nodes: Seq<NodeText>, more: NodeText, p: int, m: int)
    requires
        stems_ok(c, nodes, p, m),
        0 <= p < nodes.len(),
        0 <= m,
        origin(c).seeds <= nodes.len(),
        more.parent_id == Some(p),
        is_answer(c, nodes.push(more), nodes.len() as int, p, m),
        forall|n: int|
            origin(c).seeds <= n < nodes.len() ==> 0 <= (#[trigger] nodes[n]).parent_id->0 < n,
    ensures
        stems_ok(c, nodes.push(more), p, m + 1),
{
    let grown = nodes.push(more);
    let last = nodes.len() as int;
    assert forall|n: int, q: int, k: int|
        0 <= n < nodes.len() && #[trigger] is_answer(c, nodes, n, q, k) implies is_answer(
        c,
        grown,
        n,
        q,
        k,
    ) by {
        assert(grown[n] == nodes[n] && grown[q] == nodes[q]);
    }
    assert forall|n: int| origin(c).seeds <= n < grown.len() implies {
        let r = (#[trigger] grown[n]).parent_id->0;
        &&& grown[n].parent_id is Some
        &&& stems_from(
            c,
            grown,
            n,
            r,
            if r == p {
                m + 1
            } else {
                (c.ask)(grown[r]).len() as int
            },
        )
    } by {
        if n < last {
            assert(grown[n] == nodes[n]);
            let r = nodes[n].parent_id->0;
            assert(grown[r] == nodes[r]);
            let top = if r == p {
                m
            } else {
                (c.ask)(nodes[r]).len() as int
            };
            assert(stems_from(c, nodes, n, r, top));
            let k = choose|k: int| 0 <= k < top && #[trigger] is_answer(c, nodes, n, r, k);
            assert(is_answer(c, grown, n, r, k));
        } else {
            assert(is_answer(c, grown, last, p, m));
        }
    }
    assert forall|i: int, j: int|
        origin(c).seeds <= i < j < grown.len() && (#[trigger] grown[i]).parent_id == (
        #[trigger] grown[j]).parent_id implies in_answered_order(c, grown, i, j) by {
        assert(grown[i] == nodes[i]);
        if j < last {
            assert(grown[j] == nodes[j]);
            assert(in_answered_order(c, nodes, i, j));
            let (k, h) = choose|k: int, h: int|
                k < h && #[trigger] is_answer(c, nodes, i, nodes[i].parent_id->0, k)
                    && #[trigger] is_answer(c, nodes, j, nodes[j].parent_id->0, h);
            assert(is_answer(c, grown, i, grown[i].parent_id->0, k));
            assert(is_answer(c, grown, j, grown[j].parent_id->0, h));
        } else {
            assert(stems_from(c, nodes, i, p, m));
            let k = choose|k: int| 0 <= k < m && #[trigger] is_answer(c, nodes, i, p, k);
            assert(is_answer(c, grown, i, grown[i].parent_id->0, k));
            assert(is_answer(c, grown, j, grown[j].parent_id->0, m));
        }
    }
}

proof fn lemma_embedded_complete(c: Setting, s: WalkState)
    requires
        walk::sound(limits(c), origin(c), s),
        complete(c, s),
        s.phase is Fetching,
    ensures
        complete(
            c,
            walk::embedded(s, (c.has)(s.phase->Fetching_candidate.chunk_id)),
        ),
{
    let l = limits(c);
    let o = origin(c);
    let parent = s.phase->Fetching_parent;
    let candidate = s.phase->Fetching_candidate;
    let rest = s.phase->Fetching_rest;
    let all = (c.ask)(s.nodes[parent]);
    let m = all.len() - rest.len() - 1;
    let found = (c.has)(candidate.chunk_id);
    let t = walk::embedded(s, found);
    assert(s.head <= s.nodes.len()) by {
        reveal(walk::tree_ok);
    }
    if found {
        let more = t.nodes.last();
        assert(t.nodes =~= s.nodes.push(more));
        assert(t.nodes[parent] == s.nodes[parent]);
        let last = s.nodes.len() as int;
        lemma_off_limits(c, candidate.result.path);
        assert(is_answer(c, t.nodes, last, parent, m));
        assert forall|n: int| o.seeds <= n < s.nodes.len() implies 0 <= (
        #[trigger] s.nodes[n]).parent_id->0 < n by {
            lemma_parents_behind(l, o, s, n);
        }
        assert(o.seeds <= s.nodes.len()) by {
            reveal(walk::tree_ok);
        }
        lemma_stems_grow(c, s.nodes, more, parent, m);
        assert(accounted_before(c, t.nodes, parent)) by {
            assert forall|p: int|
                0 <= p < parent && t.nodes[p].depth
                    < c.options.depth implies #[trigger] accounted_to(
                c,
                t.nodes,
                p,
                (c.ask)(t.nodes[p]).len() as int,
            ) by {
                assert(t.nodes[p] == s.nodes[p]);
                let n = (c.ask)(s.nodes[p]).len() as int;
                assert(accounted_to(c, s.nodes, p, n));
                assert forall|i: int| 0 <= i < n implies #[trigger] accounted(
                    c,
                    t.nodes,
                    p,
                    i,
                ) by {
                    assert(accounted(c, s.nodes, p, i));
                    lemma_accounted_grows(c, s.nodes, more, p, i);
                }
            }
        }
        assert(accounted_to(c, t.nodes, parent, m + 1)) by {
            assert forall|i: int| 0 <= i < m + 1 implies #[trigger] accounted(
                c,
                t.nodes,
                parent,
                i,
            ) by {
                if i < m {
                    assert(accounted(c, s.nodes, parent, i));
                    lemma_children(s.nodes, parent);
                    lemma_accounted_grows(c, s.nodes, more, parent, i);
                } else {
                    assert(t.nodes[last].chunk_id == candidate.chunk_id);
                    assert(known_at(t.nodes[last], parent));
                }
            }
        }
        assert(seen_ok(c, t, None)) by {
            assert forall|id: i64| #[trigger] t.visited.contains(id) implies seen_for(
                c,
                t,
                None,
                id,
            ) by {
                assert(s.visited.contains(id));
                if id == candidate.chunk_id {
                    assert(t.nodes[last].chunk_id == id);
                } else if exists|n: int|
                    0 <= n < s.nodes.len() && (#[trigger] s.nodes[n]).chunk_id == id {
                    let n = choose|n: int|
                        0 <= n < s.nodes.len() && (#[trigger] s.nodes[n]).chunk_id == id;
                    assert(t.nodes[n] == s.nodes[n]);
                }
            }
        }
        assert(blocked_ok(c, t, parent, m + 1, None)) by {
            lemma_blocked_grows(c, s, t, parent, m, candidate.result.path);
            assert(t.nodes[last].path == candidate.result.path);
        }
    } else {
        assert(t.nodes == s.nodes);
        lemma_stems_longer(c, s.nodes, parent, m);
        assert(accounted(c, t.nodes, parent, m));
        assert(accounted_to(c, t.nodes, parent, m + 1));
        assert(seen_ok(c, t, None));
        assert(blocked_ok(c, t, parent, m + 1, None)) by {
            lemma_blocked_grows(c, s, t, parent, m, candidate.result.path);
            assert(earlier(parent, m, parent, m + 1));
            assert(came_to_nothing(c, t.nodes, parent, m, candidate.result.path));
        }
    }
}

/// The paths that were blocked stay so for their reasons when the walk goes on; the one
/// that was waited for is left.
proof fn lemma_blocked_grows(
    c: Setting,
    s: WalkState,
    t: WalkState,
    p: int,
    m: int,
    pending: Seq<char>,
)
    requires
        blocked_ok(c, s, p, m, Some(pending)),
        s.nodes.is_prefix_of(t.nodes),
        t.blocked == s.blocked,
    ensures
        blocked_ok(c, t, p, m + 1, Some(pending)),
{
    assert forall|n: int| 0 <= n < s.nodes.len() implies #[trigger] t.nodes[n] == s.nodes[n] by {
        assert(s.nodes == t.nodes.take(s.nodes.len() as int));
        assert(t.nodes.take(s.nodes.len() as int)[n] == t.nodes[n]);
    }
    assert forall|path: Seq<char>| #[trigger] t.blocked.contains(path) implies blocked_for(
        c,
        t,
        p,
        m + 1,
        Some(pending),
        path,
    ) by {
        assert(s.blocked.contains(path));
        if exists|n: int|
            0 <= n < s.nodes.len() && (#[trigger] s.nodes[n]).path == path
                && s.nodes[n].parent_id is Some {
            let n = choose|n: int|
                0 <= n < s.nodes.len() && (#[trigger] s.nodes[n]).path == path
                    && s.nodes[n].parent_id is Some;
            assert(t.nodes[n] == s.nodes[n]);
        }
        if exists|a: int, b: int|
            earlier(a, b, p, m) && a < s.nodes.len() && #[trigger] came_to_nothing(
                c,
                s.nodes,
                a,
                b,
                path,
            ) {
            let (a, b) = choose|a: int, b: int|
                earlier(a, b, p, m) && a < s.nodes.len() && #[trigger] came_to_nothing(
                    c,
                    s.nodes,
                    a,
                    b,
                    path,
                );
            assert(t.nodes[a] == s.nodes[a]);
            assert(earlier(a, b, p, m + 1));
            assert(came_to_nothing(c, t.nodes, a, b, path));
        }
    }
}

proof fn lemma_started_complete(c: Setting)
    requires
        c.seeds.len() > 0,
    ensures
        walk::out_of_budget(walk_at(c, 0)) || complete(c, walk_at(c, 0)),
{
    let s = walk_at(c, 0);
    if !walk::out_of_budget(s) {
        assert(seen_ok(c, s, None)) by {
            assert forall|id: i64| #[trigger] s.visited.contains(id) implies seen_for(
                c,
                s,
                None,
                id,
            ) by {
                let top = match c.options.seed_strategy {
                    SeedStrategy::AllChunks => walk::seed_nodes(
                        c.options.seed_strategy,
                        c.seeds.len(),
                        walk::limits_of(c.options).max_nodes,
                    ) as int,
                    SeedStrategy::Centroid => c.seeds.len() as int,
                };
                let i = choose|i: int| 0 <= i < top && (#[trigger] c.seeds[i]).chunk_id == id;
                if c.options.seed_strategy == SeedStrategy::AllChunks {
                    assert(s.nodes[i].chunk_id == id);
                }
            }
        }
        assert(blocked_ok(c, s, 0, 0, None)) by {
            assert forall|path: Seq<char>| #[trigger] s.blocked.contains(path) implies off_limits(
                c,
                path,
            ) by {
                lemma_off_limits(c, path);
            }
        }
    }
}

proof fn lemma_walk_complete(c: Setting, n: nat)
    requires
        c.seeds.len() > 0,
    ensures
        walk::sound(limits(c), origin(c), walk_at(c, n)),
        walk::out_of_budget(walk_at(c, n)) || complete(c, walk_at(c, n)),
        walk::out_of_budget(walk_at(c, n)) ==> lost(c, walk_at(c, n)) && (walk_at(
            c,
            n,
        ).phase is Idle || walk_at(c, n).phase is Finished),
    decreases n,
{
    if n == 0 {
        walk::starting_is_sound(c.start_path, c.seeds, c.more_chunks, c.options);
        lemma_started_complete(c);
        let s = walk_at(c, 0);
        if walk::out_of_budget(s) {
            let k = choose|k: int|
                0 <= k < s.truncation.len() && (#[trigger] s.truncation[k]).reason
                    == TruncationReason::NodeBudget;
            assert(walk::seeds_cut(
                c.options.seed_strategy,
                c.seeds.len(),
                limits(c).max_nodes,
            ));
        }
    } else {
        let s = walk_at(c, (n - 1) as nat);
        let l = limits(c);
        lemma_walk_complete(c, (n - 1) as nat);
        walk::lemma_stepped_sound(l, origin(c), s, c.ask, c.has);
        let t = walk::settled(l, s);
        walk::settling_is_sound(l, origin(c), s);
        walk::lemma_settled_keeps(l, s);
        if walk::out_of_budget(s) {
            assert(s.nodes.len() >= l.max_nodes) by {
                reveal(walk::counts_ok);
            }
            lemma_lost_stays(c, s);
        } else {
            lemma_settled_complete(c, s);
            if walk::out_of_budget(t) {
                assert(t.phase is Finished) by {
                    lemma_cut_means_finished(l, s);
                }
            } else if t.phase is Querying {
                lemma_answered_complete(c, t);
            } else if t.phase is Fetching {
                lemma_embedded_complete(c, t);
            }
        }
    }
}

/// A walk that the budget cuts as it moves on has come to its end.
proof fn lemma_cut_means_finished(l: WalkLimits, s: WalkState)
    requires
        walk::out_of_budget(walk::settled(l, s)),
        !walk::out_of_budget(s),
    ensures
        walk::settled(l, s).phase is Finished,
    decreases
            s.nodes.len() - s.head,
            match s.phase {
                PhaseState::Scanning { parent, rest, added } => rest.len() + 1,
                _ => 0,
            },
{
    match s.phase {
        PhaseState::Scanning { parent, rest, added } => {
            if rest.len() == 0 || added >= l.fan_out {
                lemma_cut_means_finished(l, WalkState { phase: PhaseState::Idle, ..s });
            } else if walk::dropped(l, s, rest[0]) {
                lemma_cut_means_finished(
                    l,
                    WalkState {
                        phase: PhaseState::Scanning { parent, rest: rest.skip(1), added },
                        ..s
                    },
                );
            } else if s.nodes.len() >= l.max_nodes {
                lemma_full_means_finished(
                    l,
                    WalkState { phase: PhaseState::Idle, ..walk::refused(l, s) },
                );
            }
        },
        PhaseState::Idle => {
            if l.fan_out == 0 || s.head >= s.nodes.len() {
            } else if s.nodes[s.head as int].depth >= l.depth {
                lemma_cut_means_finished(l, WalkState { head: s.head + 1, ..s });
            } else if s.nodes.len() >= l.max_nodes {
                lemma_full_means_finished(
                    l,
                    WalkState { head: s.head + 1, ..walk::refused(l, s) },
                );
            }
        },
        _ => {},
    }
}

proof fn lemma_full_means_finished(l: WalkLimits, s: WalkState)
    requires
        s.nodes.len() >= l.max_nodes,
        s.phase is Idle,
    ensures
        walk::settled(l, s).phase is Finished,
    decreases s.nodes.len() - s.head,
{
    if l.fan_out == 0 || s.head >= s.nodes.len() {
    } else if s.nodes[s.head as int].depth >= l.depth {
        lemma_full_means_finished(l, WalkState { head: s.head + 1, ..s });
    } else {
        lemma_full_means_finished(l, WalkState { head: s.head + 1, ..walk::refused(l, s) });
    }
}

// ---------------------------------------------------------------------------
// Finished walks
// ---------------------------------------------------------------------------

/// A finished walk that the budget has not cut is complete: of every node above the full
/// depth, each neighbour that was answered has become a node or is left out for one of
/// the reasons there are.
pub proof fn walks_leave_nothing_out(c: Setting, n: nat, p: int, m: int)
    requires
        c.seeds.len() > 0,
        c.options.fan_out > 0,
        walk_at(c, n).phase is Finished,
        !walk::out_of_budget(walk_at(c, n)),
        0 <= p < walk_at(c, n).nodes.len(),
        walk_at(c, n).nodes[p].depth < c.options.depth,
        0 <= m < (c.ask)(walk_at(c, n).nodes[p]).len(),
    ensures
        accounted(c, walk_at(c, n).nodes, p, m),
{
    lemma_walk_complete(c, n);
    let s = walk_at(c, n);
    assert(s.head == s.nodes.len());
    assert(accounted_to(c, s.nodes, p, (c.ask)(s.nodes[p]).len() as int));
}

/// Nothing but the seeds and answers becomes a node: every node that is not a seed is an
/// answer about a node before it, as it was answered, and the answers about one node
/// become nodes in their order.
pub proof fn walks_add_only_answers(c: Setting, n: nat, i: int, j: int)
    requires
        c.seeds.len() > 0,
        walk_at(c, n).phase is Finished,
        !walk::out_of_budget(walk_at(c, n)),
        0 <= i <= j < walk_at(c, n).nodes.len(),
        walk_at(c, n).nodes[i].parent_id is Some,
        walk_at(c, n).nodes[j].parent_id is Some,
    ensures
        ({
            let nodes = walk_at(c, n).nodes;
            let p = nodes[i].parent_id->0;
            &&& stems_from(c, nodes, i, p, (c.ask)(nodes[p]).len() as int)
            &&& i < j && nodes[j].parent_id == nodes[i].parent_id ==> in_answered_order(
                c,
                nodes,
                i,
                j,
            )
        }),
{
    lemma_walk_complete(c, n);
    let s = walk_at(c, n);
    lemma_parents_behind(limits(c), origin(c), s, i);
    lemma_parents_behind(limits(c), origin(c), s, j);
    let p = s.nodes[i].parent_id->0;
    assert(p < s.head);
    assert(stems_ok(c, s.nodes, s.head as int, 0));
    assert(stems_from(c, s.nodes, i, p, (c.ask)(s.nodes[p]).len() as int));
}

/// The seeds come first, at depth zero and with full score: one node for each chunk that
/// the walk starts from, or one for all of them; and no other node is without a parent.
pub proof fn walks_start_from_their_seeds(c: Setting, n: nat, i: int)
    requires
        c.seeds.len() > 0,
        !walk::out_of_budget(walk_at(c, n)),
    ensures
        ({
            let nodes = walk_at(c, n).nodes;
            let seeds = match c.options.seed_strategy {
                SeedStrategy::AllChunks => c.seeds.len() as int,
                SeedStrategy::Centroid => 1,
            };
            &&& seeds <= nodes.len()
            &&& 0 <= i < nodes.len() ==> nodes[i].node_id == i && (nodes[i].parent_id is None
                <==> i < seeds)
            &&& 0 <= i < seeds ==> {
                let r = c.seeds[i].result@;
                &&& nodes[i].depth == 0
                &&& nodes[i].chunk_id == c.seeds[i].chunk_id
                &&& nodes[i].score == Float32::one()
                &&& nodes[i].path == r.path
                &&& nodes[i].heading == r.heading
                &&& nodes[i].title == r.title
                &&& nodes[i].topic == r.topic
                &&& nodes[i].snippet == graph::snippet(r.content)
            }
        }),
{
    lemma_walk_complete(c, n);
    lemma_seeds_stay(c, n);
    let s = walk_at(c, n);
    let first = walk_at(c, 0);
    assert(!walk::out_of_budget(first));
    assert(!walk::seeds_cut(
        c.options.seed_strategy,
        c.seeds.len(),
        walk::limits_of(c.options).max_nodes,
    )) by {
        if walk::seeds_cut(
            c.options.seed_strategy,
            c.seeds.len(),
            walk::limits_of(c.options).max_nodes,
        ) {
            assert(first.truncation.last().reason == TruncationReason::NodeBudget);
        }
    }
    reveal(walk::tree_ok);
    if 0 <= i < s.nodes.len() {
        lemma_parents_behind(limits(c), origin(c), s, i);
        assert(s.nodes[i].node_id == i);
    }
    if 0 <= i < first.nodes.len() {
        assert(s.nodes.take(first.nodes.len() as int)[i] == first.nodes[i]);
    }
}

proof fn lemma_seeds_stay(c: Setting, n: nat)
    ensures
        walk_at(c, 0).nodes.is_prefix_of(walk_at(c, n).nodes),
        walk::out_of_budget(walk_at(c, 0)) ==> walk::out_of_budget(walk_at(c, n)),
    decreases n,
{
    if n > 0 {
        lemma_seeds_stay(c, (n - 1) as nat);
        walk::lemma_settled_keeps(limits(c), walk_at(c, (n - 1) as nat));
    }
}

/// A walk that may add no neighbours has the seeds only.
pub proof fn walks_without_neighbours_have_the_seeds_only(c: Setting, n: nat)
    requires
        c.options.fan_out == 0,
    ensures
        walk_at(c, n).nodes == walk_at(c, 0).nodes,
        walk_at(c, n).knn_queries == 0,
    decreases n,
{
    lemma_no_fan_out(c, n);
}

proof fn lemma_no_fan_out(c: Setting, n: nat)
    requires
        c.options.fan_out == 0,
    ensures
        walk_at(c, n).nodes == walk_at(c, 0).nodes,
        walk_at(c, n).knn_queries == 0,
        n == 0 ==> walk_at(c, n).phase is Idle,
        n > 0 ==> walk_at(c, n).phase is Finished,
    decreases n,
{
    if n > 0 {
        lemma_no_fan_out(c, (n - 1) as nat);
    }
}

/// The nodes that may be asked about.
pub open spec fn above(depth: u32) -> spec_fn(NodeText) -> bool {
    |n: NodeText| n.depth < depth
}

proof fn lemma_expandable(l: WalkLimits, nodes: Seq<NodeText>, n: nat)
    requires
        n <= nodes.len(),
    ensures
        walk::expandable(l, nodes, n) == nodes.take(n as int).filter(above(l.depth)).len(),
    decreases n,
{
    reveal(Seq::filter);
    if n > 0 {
        lemma_expandable(l, nodes, (n - 1) as nat);
        assert(nodes.take(n as int).drop_last() =~= nodes.take(n - 1));
    }
}

/// What a finished walk counts: no more nodes than the budget, each at most at the full
/// depth, and the deepest at the depth reached. Where the budget has cut nothing, every
/// node above the full depth was asked about once; where it has, it is used up.
pub proof fn walks_count_what_they_did(c: Setting, n: nat)
    requires
        c.seeds.len() > 0,
        walk_at(c, n).phase is Finished,
    ensures
        ({
            let s = walk_at(c, n);
            let budget = if c.options.max_nodes < 2000 {
                c.options.max_nodes
            } else {
                2000
            };
            &&& s.nodes.len() <= budget
            &&& walk::out_of_budget(s) ==> s.nodes.len() == budget
            &&& s.knn_queries <= s.nodes.len()
            &&& !walk::out_of_budget(s) && c.options.fan_out > 0 ==> s.knn_queries
                == s.nodes.filter(above(c.options.depth)).len()
            &&& forall|i: int|
                0 <= i < s.nodes.len() ==> (#[trigger] s.nodes[i]).depth <= s.max_depth_reached
                    && (s.nodes[i].depth == 0 || s.nodes[i].depth <= c.options.depth)
            &&& s.max_depth_reached == 0 || exists|i: int|
                0 <= i < s.nodes.len() && (#[trigger] s.nodes[i]).depth == s.max_depth_reached
            &&& forall|i: int, j: int|
                0 <= i < j < s.nodes.len() ==> (#[trigger] s.nodes[i]).depth <= (
                #[trigger] s.nodes[j]).depth
            &&& forall|p: int| #[trigger] children_of(s.nodes, p) <= c.options.fan_out
        }),
{
    lemma_walk_complete(c, n);
    let s = walk_at(c, n);
    let l = limits(c);
    walk::finished_walks_are_bounded(l, origin(c), s);
    reveal(walk::tree_ok);
    reveal(walk::counts_ok);
    reveal(walk::breadth_first);
    reveal(walk::fan_out_ok);
    lemma_expandable(l, s.nodes, s.nodes.len());
    assert(s.nodes.take(s.nodes.len() as int) =~= s.nodes);
    assert forall|p: int| #[trigger] children_of(s.nodes, p) <= c.options.fan_out by {
        lemma_children(s.nodes, p);
    }
    assert forall|i: int| 0 <= i < s.nodes.len() implies (#[trigger] s.nodes[i]).depth
        <= s.max_depth_reached && (s.nodes[i].depth == 0 || s.nodes[i].depth
        <= c.options.depth) by {
        assert(s.nodes[i].depth <= s.max_depth_reached);
        if i < origin(c).seeds {
            assert(s.nodes[i].depth == 0);
        } else {
            assert(s.nodes[i].depth <= l.depth);
        }
    }
}

/// No chunk is found twice, seeds included, and where paths are to differ no path is.
pub proof fn walks_find_nothing_twice(c: Setting, n: nat, i: int, j: int)
    requires
        c.seeds.len() > 0,
        0 <= i < j < walk_at(c, n).nodes.len(),
        walk_at(c, n).nodes[j].parent_id is Some,
    ensures
        walk_at(c, n).nodes[i].chunk_id != walk_at(c, n).nodes[j].chunk_id,
        c.options.dedup_by_path && walk_at(c, n).nodes[i].parent_id is Some ==> walk_at(
            c,
            n,
        ).nodes[i].path != walk_at(c, n).nodes[j].path,
{
    lemma_walk_complete(c, n);
    let s = walk_at(c, n);
    lemma_parents_behind(limits(c), origin(c), s, i);
    lemma_parents_behind(limits(c), origin(c), s, j);
    reveal(walk::ids_ok);
    reveal(walk::filters_ok);
}

/// The budget is not said to have cut a walk in vain: there were more seeds than it allows,
/// or a node above the full depth was not asked about, or a neighbour was kept out that
/// nothing else was against.
pub proof fn cuts_are_not_noted_in_vain(c: Setting, n: nat)
    requires
        c.seeds.len() > 0,
        walk_at(c, n).phase is Finished,
        walk::out_of_budget(walk_at(c, n)),
    ensures
        ({
            let s = walk_at(c, n);
            ||| too_many_seeds(c)
            ||| s.knn_queries < s.nodes.filter(above(c.options.depth)).len()
            ||| exists|p: int, m: int| #[trigger] kept_out_by_the_budget(c, s.nodes, p, m)
        }),
{
    lemma_walk_complete(c, n);
    let s = walk_at(c, n);
    assert(s.head <= s.nodes.len()) by {
        reveal(walk::tree_ok);
    }
    lemma_expandable_grows(limits(c), s.nodes, s.head, s.nodes.len());
    lemma_expandable(limits(c), s.nodes, s.nodes.len());
    assert(s.nodes.take(s.nodes.len() as int) =~= s.nodes);
}

proof fn lemma_settled_notes(l: WalkLimits, s: WalkState)
    ensures
        walk::settled(l, s).truncation == s.truncation || walk::settled(l, s).truncation
            == graph::noted(s.truncation, budget_note(l)),
    decreases
            s.nodes.len() - s.head,
            match s.phase {
                PhaseState::Scanning { parent, rest, added } => rest.len() + 1,
                _ => 0,
            },
{
    lemma_noted_once(s.truncation, budget_note(l));
    match s.phase {
        PhaseState::Scanning { parent, rest, added } => {
            if rest.len() == 0 || added >= l.fan_out {
                lemma_settled_notes(l, WalkState { phase: PhaseState::Idle, ..s });
            } else if walk::dropped(l, s, rest[0]) {
                lemma_settled_notes(
                    l,
                    WalkState {
                        phase: PhaseState::Scanning { parent, rest: rest.skip(1), added },
                        ..s
                    },
                );
            } else if s.nodes.len() >= l.max_nodes {
                lemma_settled_notes(
                    l,
                    WalkState { phase: PhaseState::Idle, ..walk::refused(l, s) },
                );
            }
        },
        PhaseState::Idle => {
            if l.fan_out == 0 || s.head >= s.nodes.len() {
            } else if s.nodes[s.head as int].depth >= l.depth {
                lemma_settled_notes(l, WalkState { head: s.head + 1, ..s });
            } else if s.nodes.len() >= l.max_nodes {
                lemma_settled_notes(l, WalkState { head: s.head + 1, ..walk::refused(l, s) });
            }
        },
        _ => {},
    }
}

proof fn lemma_noted_once(t: Seq<TruncationText>, entry: TruncationText)
    ensures
        graph::noted(graph::noted(t, entry), entry) == graph::noted(t, entry),
{
    if !graph::names_reason(t, entry.reason) {
        assert(t.push(entry)[t.len() as int].reason == entry.reason);
    }
}

/// What is noted of a budget.
pub open spec fn budget_note(l: WalkLimits) -> TruncationText {
    TruncationText {
        reason: TruncationReason::NodeBudget,
        limit: l.max_nodes,
        detail: graph::node_budget_text(l.max_nodes as nat),
    }
}

/// What is noted of a walk: that it started from the first chunks only, exactly where there
/// are more, with the cap on them; and after that, if at all, that the budget has cut it,
/// with the budget. Each is noted once.
pub proof fn walks_note_what_cut_them(c: Setting, n: nat)
    ensures
        ({
            let t = walk_at(c, n).truncation;
            let o = c.options;
            let cap: u32 = if o.max_seed_chunks == 0 {
                1
            } else if o.max_seed_chunks < 1000 {
                o.max_seed_chunks
            } else {
                1000
            };
            let budget: u32 = if o.max_nodes < 2000 {
                o.max_nodes
            } else {
                2000
            };
            let first: Seq<TruncationText> = if c.more_chunks {
                seq![
                    TruncationText {
                        reason: TruncationReason::SeedChunks,
                        limit: cap,
                        detail: graph::seed_cap_text(o.seed_strategy, cap as nat),
                    },
                ]
            } else {
                Seq::empty()
            };
            let cut = TruncationText {
                reason: TruncationReason::NodeBudget,
                limit: budget,
                detail: graph::node_budget_text(budget as nat),
            };
            &&& t == first || t == first.push(cut)
            &&& walk::out_of_budget(walk_at(c, n)) <==> t == first.push(cut)
            &&& n == 0 ==> (t == first.push(cut) <==> too_many_seeds(c))
        }),
    decreases n,
{
    let o = c.options;
    let l = limits(c);
    let plain: Seq<TruncationText> = if c.more_chunks {
        seq![
            TruncationText {
                reason: TruncationReason::SeedChunks,
                limit: walk::seed_cap(o),
                detail: graph::seed_cap_text(o.seed_strategy, walk::seed_cap(o) as nat),
            },
        ]
    } else {
        Seq::empty()
    };
    let cut = budget_note(l);
    assert(plain.push(cut)[plain.len() as int] == cut);
    assert(plain != plain.push(cut)) by {
        assert(plain.len() != plain.push(cut).len());
    }
    assert(graph::names_reason(plain.push(cut), TruncationReason::NodeBudget));
    assert(!graph::names_reason(plain, TruncationReason::NodeBudget));
    if n > 0 {
        walks_note_what_cut_them(c, (n - 1) as nat);
        lemma_settled_notes(l, walk_at(c, (n - 1) as nat));
    }
}

/// What a walk asks: for the neighbours of the node whose turn it is, twice as many as it may
/// add, as far as the number goes; and for the embedding of the neighbour that it has taken
/// up.
pub proof fn walks_ask_for_twice_as_many(l: WalkLimits, s: WalkState)
    requires
        s.phase is Querying ==> 0 <= s.phase->Querying_parent <= usize::MAX,
    ensures
        s.phase matches PhaseState::Querying { parent } ==> walk::question(l, s) == (
        Question::Neighbours {
            node_id: parent as usize,
            depth: s.nodes[parent].depth,
            fetch_k: if l.fan_out < 0x8000_0000 {
                (2 * l.fan_out) as u32
            } else {
                0xffff_ffff
            },
        }),
        s.phase matches PhaseState::Fetching { parent, candidate, rest, added }
            ==> walk::question(l, s) == (Question::Embedding { chunk_id: candidate.chunk_id }),
        s.phase is Finished ==> walk::question(l, s) == Question::Done,
{
}

/// A snippet is the content where it has 200 characters or fewer, and else its first 200
/// and an ellipsis.
pub proof fn snippets_are_the_first_characters(content: Seq<char>)
    ensures
        content.len() <= 200 ==> graph::snippet(content) == content,
        content.len() > 200 ==> graph::snippet(content).len() == 201 && graph::snippet(
            content,
        ).take(200) == content.take(200) && graph::snippet(content)[200] == '\u{2026}',
{
    if content.len() > 200 {
        assert(graph::snippet(content).take(200) =~= content.take(200));
    }
}

/// The limits of a walk are those of its options; only the nodes are capped, at 2000, and
/// the seeds, of which there is always one, at 1000.
pub proof fn limits_are_those_of_the_options(o: GraphOptions)
    ensures
        walk::limits_of(o).depth == o.depth,
        walk::limits_of(o).fan_out == o.fan_out,
        walk::limits_of(o).min_similarity == o.min_similarity,
        walk::limits_of(o).dedup_by_path == o.dedup_by_path,
        walk::limits_of(o).max_nodes == graph::node_bound(o.max_nodes),
        walk::seed_cap(o) == graph::seed_bound(o.max_seed_chunks),
        o.max_nodes <= 2000 ==> walk::limits_of(o).max_nodes == o.max_nodes,
        o.max_nodes >= 2000 ==> walk::limits_of(o).max_nodes == 2000,
        1 <= o.max_seed_chunks <= 1000 ==> walk::seed_cap(o) == o.max_seed_chunks,
        o.max_seed_chunks >= 1000 ==> walk::seed_cap(o) == 1000,
        o.max_seed_chunks == 0 ==> walk::seed_cap(o) == 1,
{
}

/// Of the seeds that were read the first are kept, as many as the cap allows, and that
/// there were more is said exactly where there were.
pub proof fn the_first_seeds_are_kept<A>(read: Seq<A>, cap: u32, r: (Vec<A>, bool), i: int)
    requires
        walk::seeds_capped(read, cap, r),
    ensures
        r.1 <==> read.len() > cap,
        r.0@.len() == (if read.len() > cap {
            cap as int
        } else {
            read.len() as int
        }),
        0 <= i < r.0@.len() ==> r.0@[i] == read[i],
{
}

} // verus!
