use vstd::prelude::*;
use vstd::seq_lib::seq_to_set_is_finite;
use vstd::set_lib::lemma_len_subset;
use crate::solver::graph::{lemma_walk_nodes, lemma_walk_push, Graph};
use crate::solver::NodeId;

verus! {

/// That `rank_of` ranks the nodes that the node `c` reaches: exactly these
/// have a rank, `c` has rank zero, and every other has one more than the
/// highest rank among the ranked nodes that feed it.
pub open spec fn ranks_from(g: Graph, c: usize, rank_of: Map<usize, usize>) -> bool {
    &&& forall|v: usize| #[trigger] rank_of.contains_key(v) <==> g.reaches(c, v)
    &&& rank_of.contains_key(c) && rank_of[c] == 0
    &&& forall|u: usize, v: usize|
        rank_of.contains_key(u) && #[trigger] g.feeds(u, v) ==> rank_of.contains_key(v)
            && rank_of[u] < rank_of[v]
    &&& forall|v: usize|
        #[trigger] rank_of.contains_key(v) && v != c ==> exists|u: usize|
            #[trigger] g.feeds(u, v) && rank_of.contains_key(u) && rank_of[u] + 1 == rank_of[v]
}

/// That a walk of as many hops as its rank leads from `c` to `v`.
#[verifier::opaque]
pub open spec fn witnessed(g: Graph, c: usize, rank_of: Map<usize, usize>, v: usize) -> bool {
    exists|p: Seq<usize>| #[trigger]
        g.is_walk(p) && p[0] == c && p.last() == v && p.len() == rank_of[v] + 1
}

/// That some ranked node feeds `v` from at most one rank below.
#[verifier::opaque]
pub open spec fn supported(g: Graph, rank_of: Map<usize, usize>, v: usize) -> bool {
    exists|u: usize| #[trigger]
        g.feeds(u, v) && rank_of.contains_key(u) && rank_of[u] + 1 >= rank_of[v]
}

/// What holds of the table while ranks are still rising.
pub open spec fn tracking(g: Graph, c: usize, bound: usize, rank_of: Map<usize, usize>) -> bool {
    &&& rank_of.contains_key(c) && rank_of[c] == 0
    &&& forall|v: usize| #[trigger]
        rank_of.contains_key(v) ==> rank_of[v] < bound && witnessed(g, c, rank_of, v)
    &&& forall|v: usize| #[trigger] rank_of.contains_key(v) && v != c ==> supported(g, rank_of, v)
}

/// That every node which `u` feeds is ranked above `u`, where `u` is ranked.
pub open spec fn closed_at(g: Graph, rank_of: Map<usize, usize>, u: usize) -> bool {
    rank_of.contains_key(u) ==> forall|v: usize| #[trigger]
        g.feeds(u, v) ==> rank_of.contains_key(v) && rank_of[u] < rank_of[v]
}

/// That no rank was lost or lowered from `a` to `b`.
pub open spec fn grown(a: Map<usize, usize>, b: Map<usize, usize>) -> bool {
    forall|v: usize| #[trigger] a.contains_key(v) ==> b.contains_key(v) && a[v] <= b[v]
}

/// One more than the rank of `v`, zero where it has none.
pub open spec fn score(rank_of: Map<usize, usize>, v: usize) -> nat {
    if rank_of.contains_key(v) {
        (rank_of[v] + 1) as nat
    } else {
        0
    }
}

/// The sum of the scores of `ids`.
pub open spec fn potential(ids: Seq<NodeId>, rank_of: Map<usize, usize>) -> nat
    decreases ids.len(),
{
    if ids.len() == 0 {
        0
    } else {
        potential(ids.drop_last(), rank_of) + score(rank_of, ids.last().0)
    }
}

/// The potential is at most the number of nodes times the bound on ranks.
pub(crate) proof fn lemma_potential_bound(ids: Seq<NodeId>, rank_of: Map<usize, usize>, bound: usize)
    requires
        forall|v: usize| #[trigger] rank_of.contains_key(v) ==> rank_of[v] < bound,
    ensures
        potential(ids, rank_of) <= ids.len() * bound,
    decreases ids.len(),
{
    if ids.len() > 0 {
        lemma_potential_bound(ids.drop_last(), rank_of, bound);
        assert(score(rank_of, ids.last().0) <= bound);
        assert((ids.len() - 1) * bound + bound == ids.len() * bound) by (nonlinear_arith);
    }
}

/// The potential does not fall where no rank falls.
pub(crate) proof fn lemma_potential_grown(ids: Seq<NodeId>, a: Map<usize, usize>, b: Map<usize, usize>)
    requires
        grown(a, b),
    ensures
        potential(ids, a) <= potential(ids, b),
    decreases ids.len(),
{
    if ids.len() > 0 {
        lemma_potential_grown(ids.drop_last(), a, b);
    }
}

/// The potential rises where the score of a listed node rises and no rank
/// falls.
pub(crate) proof fn lemma_potential_rises(
    ids: Seq<NodeId>,
    a: Map<usize, usize>,
    b: Map<usize, usize>,
    v: usize,
)
    requires
        grown(a, b),
        ids.contains(NodeId(v)),
        score(a, v) < score(b, v),
    ensures
        potential(ids, a) < potential(ids, b),
    decreases ids.len(),
{
    if ids.len() > 0 {
        if ids.last() == NodeId(v) {
            lemma_potential_grown(ids.drop_last(), a, b);
        } else {
            let k = choose|k: int| 0 <= k < ids.len() && ids[k] == NodeId(v);
            assert(ids.drop_last()[k] == NodeId(v));
            lemma_potential_rises(ids.drop_last(), a, b, v);
        }
    }
}

/// A walk with more nodes than the graph has comes by some node twice.
pub(crate) proof fn lemma_long_walk_repeats(g: Graph, ids: Seq<NodeId>, p: Seq<usize>)
    requires
        g.is_walk(p),
        forall|n: usize| g.has(n) ==> #[trigger] ids.contains(NodeId(n)),
        p.len() > ids.len(),
    ensures
        !p.no_duplicates(),
{
    if p.no_duplicates() {
        let q = Seq::new(p.len(), |k: int| NodeId(p[k]));
        assert(q.no_duplicates());
        q.unique_seq_to_set();
        ids.lemma_cardinality_of_set();
        seq_to_set_is_finite(ids);
        assert(q.to_set().subset_of(ids.to_set())) by {
            assert forall|x: NodeId| q.to_set().contains(x) implies ids.to_set().contains(x) by {
                let k = choose|k: int| 0 <= k < q.len() && q[k] == x;
                lemma_walk_nodes(g, p, k);
                assert(ids.contains(NodeId(p[k])));
            }
        }
        lemma_len_subset(q.to_set(), ids.to_set());
    }
}

/// Where every ranked node is closed and the start is ranked, every node
/// of a walk from the start is ranked, and ranks rise along the walk.
pub(crate) proof fn lemma_walk_ranked(g: Graph, c: usize, rank_of: Map<usize, usize>, p: Seq<usize>, k: int)
    requires
        rank_of.contains_key(c),
        forall|u: usize| #[trigger] closed_at(g, rank_of, u),
        g.is_walk(p),
        p[0] == c,
        0 <= k < p.len(),
    ensures
        rank_of.contains_key(p[k]),
        rank_of[p[k]] >= rank_of[c] + k,
    decreases k,
{
    if k > 0 {
        lemma_walk_ranked(g, c, rank_of, p, k - 1);
        assert(closed_at(g, rank_of, p[k - 1]));
        assert(g.feeds(p[k - 1], p[k - 1 + 1]));
    }
}

/// Ranks rise between two nodes of a walk from the start.
pub(crate) proof fn lemma_walk_rises(
    g: Graph,
    c: usize,
    rank_of: Map<usize, usize>,
    p: Seq<usize>,
    i: int,
    j: int,
)
    requires
        rank_of.contains_key(c),
        forall|u: usize| #[trigger] closed_at(g, rank_of, u),
        g.is_walk(p),
        p[0] == c,
        0 <= i < j < p.len(),
    ensures
        rank_of.contains_key(p[i]),
        rank_of.contains_key(p[j]),
        rank_of[p[i]] < rank_of[p[j]],
    decreases j - i,
{
    lemma_walk_ranked(g, c, rank_of, p, i);
    lemma_walk_ranked(g, c, rank_of, p, j);
    lemma_walk_ranked(g, c, rank_of, p, j - 1);
    assert(closed_at(g, rank_of, p[j - 1]));
    assert(g.feeds(p[j - 1], p[j - 1 + 1]));
    if i < j - 1 {
        lemma_walk_rises(g, c, rank_of, p, i, j - 1);
    }
}

/// Where every ranked node is closed, a ranked node other than the start is
/// fed from exactly one rank below.
proof fn lemma_tight(g: Graph, c: usize, bound: usize, rank_of: Map<usize, usize>, v: usize)
    requires
        tracking(g, c, bound, rank_of),
        forall|u: usize| #[trigger] closed_at(g, rank_of, u),
        rank_of.contains_key(v),
        v != c,
    ensures
        exists|u: usize|
            #[trigger] g.feeds(u, v) && rank_of.contains_key(u) && rank_of[u] + 1 == rank_of[v],
{
    reveal(supported);
    assert(supported(g, rank_of, v));
    let u = choose|u: usize| #[trigger]
        g.feeds(u, v) && rank_of.contains_key(u) && rank_of[u] + 1 >= rank_of[v];
    assert(closed_at(g, rank_of, u));
}

/// Where every ranked node is closed, the ranked nodes are those that the
/// start reaches.
proof fn lemma_cover(g: Graph, c: usize, bound: usize, rank_of: Map<usize, usize>, v: usize)
    requires
        tracking(g, c, bound, rank_of),
        forall|u: usize| #[trigger] closed_at(g, rank_of, u),
    ensures
        rank_of.contains_key(v) <==> g.reaches(c, v),
{
    reveal(witnessed);
    if rank_of.contains_key(v) {
        assert(witnessed(g, c, rank_of, v));
    }
    if g.reaches(c, v) {
        let p = choose|p: Seq<usize>| #[trigger] g.is_walk(p) && p[0] == c && p.last() == v;
        lemma_walk_ranked(g, c, rank_of, p, p.len() - 1);
    }
}

/// Where every ranked node is closed, no walk from the start comes by a
/// node twice.
proof fn lemma_acyclic(g: Graph, c: usize, rank_of: Map<usize, usize>)
    requires
        rank_of.contains_key(c),
        forall|u: usize| #[trigger] closed_at(g, rank_of, u),
    ensures
        !g.has_cycle_from(c),
{
    if g.has_cycle_from(c) {
        let p = choose|p: Seq<usize>| #[trigger] g.is_walk(p) && p[0] == c && !p.no_duplicates();
        let (i, j) = choose|i: int, j: int|
            0 <= i < p.len() && 0 <= j < p.len() && i != j && p[i] == p[j];
        if i < j {
            lemma_walk_rises(g, c, rank_of, p, i, j);
        } else {
            lemma_walk_rises(g, c, rank_of, p, j, i);
        }
    }
}

/// A table that tracks the start and is closed at every node ranks the
/// nodes that the start reaches, and no walk from the start comes by a node
/// twice.
pub(crate) proof fn lemma_settled(g: Graph, c: usize, bound: usize, rank_of: Map<usize, usize>)
    requires
        tracking(g, c, bound, rank_of),
        forall|u: usize| #[trigger] closed_at(g, rank_of, u),
    ensures
        ranks_from(g, c, rank_of),
        !g.has_cycle_from(c),
{
    assert forall|v: usize| #[trigger] rank_of.contains_key(v) <==> g.reaches(c, v) by {
        lemma_cover(g, c, bound, rank_of, v);
    }
    assert forall|u: usize, v: usize| rank_of.contains_key(u) && #[trigger] g.feeds(u, v) implies
        rank_of.contains_key(v) && rank_of[u] < rank_of[v] by {
        assert(closed_at(g, rank_of, u));
    }
    assert forall|v: usize| #[trigger] rank_of.contains_key(v) && v != c implies exists|u: usize|
        #[trigger] g.feeds(u, v) && rank_of.contains_key(u) && rank_of[u] + 1 == rank_of[v] by {
        lemma_tight(g, c, bound, rank_of, v);
    }
    lemma_acyclic(g, c, rank_of);
}

/// A ranked node that feeds the start lies on a walk from the start that
/// comes back to it.
pub(crate) proof fn lemma_back_to_start(g: Graph, c: usize, rank_of: Map<usize, usize>, u: usize)
    requires
        rank_of.contains_key(u),
        witnessed(g, c, rank_of, u),
        g.feeds(u, c),
    ensures
        g.has_cycle_from(c),
{
    reveal(witnessed);
    let p = choose|p: Seq<usize>| #[trigger]
        g.is_walk(p) && p[0] == c && p.last() == u && p.len() == rank_of[u] + 1;
    lemma_walk_push(g, p, c);
    let q = p.push(c);
    assert(q[0] == q[q.len() - 1]);
    assert(g.is_walk(q));
}

/// A ranked node that feeds itself lies on a walk from the start that comes
/// by it twice.
pub(crate) proof fn lemma_self_loop(g: Graph, c: usize, rank_of: Map<usize, usize>, u: usize)
    requires
        rank_of.contains_key(u),
        witnessed(g, c, rank_of, u),
        g.feeds(u, u),
    ensures
        g.has_cycle_from(c),
{
    reveal(witnessed);
    let p = choose|p: Seq<usize>| #[trigger]
        g.is_walk(p) && p[0] == c && p.last() == u && p.len() == rank_of[u] + 1;
    lemma_walk_push(g, p, u);
    let q = p.push(u);
    assert(q[q.len() - 2] == q[q.len() - 1]);
    assert(g.is_walk(q));
}

/// A node that would get a rank as high as the number of nodes lies on a
/// walk from the start that comes by some node twice.
pub(crate) proof fn lemma_rank_overflow(
    g: Graph,
    c: usize,
    rank_of: Map<usize, usize>,
    ids: Seq<NodeId>,
    u: usize,
    v: usize,
)
    requires
        rank_of.contains_key(u),
        witnessed(g, c, rank_of, u),
        g.feeds(u, v),
        forall|n: usize| g.has(n) ==> #[trigger] ids.contains(NodeId(n)),
        rank_of[u] + 1 >= ids.len(),
    ensures
        g.has_cycle_from(c),
{
    reveal(witnessed);
    let p = choose|p: Seq<usize>| #[trigger]
        g.is_walk(p) && p[0] == c && p.last() == u && p.len() == rank_of[u] + 1;
    lemma_walk_push(g, p, v);
    let q = p.push(v);
    lemma_long_walk_repeats(g, ids, q);
    assert(g.is_walk(q));
}

/// Raising the rank of `v` to one more than that of a node `u` which feeds
/// it keeps the table tracking.
pub(crate) proof fn lemma_raise(
    g: Graph,
    c: usize,
    bound: usize,
    rank_of: Map<usize, usize>,
    u: usize,
    v: usize,
)
    requires
        tracking(g, c, bound, rank_of),
        rank_of.contains_key(u),
        g.feeds(u, v),
        u != v,
        v != c,
        rank_of[u] + 1 < bound,
        !rank_of.contains_key(v) || rank_of[v] < rank_of[u] + 1,
    ensures
        tracking(g, c, bound, rank_of.insert(v, (rank_of[u] + 1) as usize)),
        grown(rank_of, rank_of.insert(v, (rank_of[u] + 1) as usize)),
        score(rank_of, v) < score(rank_of.insert(v, (rank_of[u] + 1) as usize), v),
{
    reveal(witnessed);
    reveal(supported);
    let r = (rank_of[u] + 1) as usize;
    let after = rank_of.insert(v, r);
    assert forall|w: usize| #[trigger] after.contains_key(w) implies after[w] < bound && witnessed(
        g,
        c,
        after,
        w,
    ) by {
        if w == v {
            assert(witnessed(g, c, rank_of, u));
            let p = choose|p: Seq<usize>| #[trigger]
                g.is_walk(p) && p[0] == c && p.last() == u && p.len() == rank_of[u] + 1;
            lemma_walk_push(g, p, v);
            assert(g.is_walk(p.push(v)));
        } else {
            assert(rank_of.contains_key(w));
            assert(witnessed(g, c, rank_of, w));
            let p = choose|p: Seq<usize>| #[trigger]
                g.is_walk(p) && p[0] == c && p.last() == w && p.len() == rank_of[w] + 1;
            assert(g.is_walk(p) && p[0] == c && p.last() == w && p.len() == after[w] + 1);
        }
    }
    assert forall|w: usize| #[trigger] after.contains_key(w) && w != c implies supported(
        g,
        after,
        w,
    ) by {
        if w == v {
            assert(g.feeds(u, w) && after.contains_key(u) && after[u] + 1 >= after[w]);
        } else {
            assert(rank_of.contains_key(w));
            assert(supported(g, rank_of, w));
            let x = choose|x: usize| #[trigger]
                g.feeds(x, w) && rank_of.contains_key(x) && rank_of[x] + 1 >= rank_of[w];
            assert(g.feeds(x, w) && after.contains_key(x) && after[x] + 1 >= after[w]);
        }
    }
}

} // verus!
