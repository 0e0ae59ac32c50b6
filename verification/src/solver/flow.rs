use vstd::prelude::*;
use crate::nodes::model::{accept_spec, emit_spec, recompute_spec, NodesView};
use crate::solver::graph::{graph_of, Graph, Wire};
use crate::solver::ranking::ranks_from;
use crate::solver::NodeId;

verus! {

/// The connections that carry values into `n` from nodes that `c` reaches.
pub open spec fn incoming(g: Graph, c: usize, n: usize) -> Set<Wire> {
    Set::new(|w: Wire| g.carries(w) && w.to == n && g.reaches(c, w.from))
}

/// The node `x` after a delivery along each of `ds`, in this order; each
/// brings what its source offers in `nodes`.
pub open spec fn delivered(x: NodesView, ds: Seq<Wire>, nodes: Map<usize, NodesView>) -> NodesView
    decreases ds.len(),
{
    if ds.len() == 0 {
        x
    } else {
        let w = ds.last();
        accept_spec(
            delivered(x, ds.drop_last(), nodes),
            w.input as int,
            emit_spec(nodes[w.from], w.output as int),
        )
    }
}

/// That `ds` lists the connections of `s`, each once.
pub open spec fn orders(ds: Seq<Wire>, s: Set<Wire>) -> bool {
    &&& ds.no_duplicates()
    &&& forall|w: Wire| #[trigger] ds.contains(w) <==> s.contains(w)
}

/// That the node `n` of `after` is what it was in `before`, fed along every
/// connection that comes in from a node which `c` reaches, in some order,
/// with what the source offers in `after`, and then recomputed.
pub open spec fn fed_and_recomputed(
    before: Map<usize, NodesView>,
    g: Graph,
    c: usize,
    after: Map<usize, NodesView>,
    n: usize,
) -> bool {
    exists|ds: Seq<Wire>| #[trigger]
        orders(ds, incoming(g, c, n)) && after[n] == recompute_spec(
            delivered(before[n], ds, after),
        )
}

/// That `after` is `before` once a change of the node `c` has gone through
/// the graph: every node that `c` reaches has received what the nodes that
/// feed it offer and has recomputed, and every other node is as it was.
pub open spec fn settled(
    before: Map<usize, NodesView>,
    wires: Set<Wire>,
    c: usize,
    after: Map<usize, NodesView>,
) -> bool {
    let g = graph_of(before, wires);
    &&& forall|n: usize| #[trigger] after.contains_key(n) <==> before.contains_key(n)
    &&& forall|n: usize|
        #[trigger] before.contains_key(n) ==> after[n].outputs.len() == before[n].outputs.len()
    &&& forall|n: usize|
        #[trigger] before.contains_key(n) && !g.reaches(c, n) ==> after[n] == before[n]
    &&& forall|n: usize| #[trigger] g.reaches(c, n) ==> fed_and_recomputed(before, g, c, after, n)
}

/// The connections that carry values away from `u`.
pub open spec fn outgoing(g: Graph, u: usize) -> Set<Wire> {
    Set::new(|w: Wire| g.carries(w) && w.from == u)
}

/// The nodes after a delivery along each of `ds`, in this order; each
/// brings what its source offers at that time.
pub open spec fn pushed(nodes: Map<usize, NodesView>, ds: Seq<Wire>) -> Map<usize, NodesView>
    decreases ds.len(),
{
    if ds.len() == 0 {
        nodes
    } else {
        let w = ds.last();
        let so_far = pushed(nodes, ds.drop_last());
        so_far.insert(
            w.to,
            accept_spec(so_far[w.to], w.input as int, emit_spec(so_far[w.from], w.output as int)),
        )
    }
}

/// That `after` is `before` once the node `u` has had its turn: it has
/// recomputed, and then delivered what it offers along every connection that
/// carries values away from it, in some order.
pub open spec fn node_solved(
    before: Map<usize, NodesView>,
    wires: Set<Wire>,
    u: usize,
    after: Map<usize, NodesView>,
) -> bool {
    exists|ds: Seq<Wire>| #[trigger]
        orders(ds, outgoing(graph_of(before, wires), u)) && after == pushed(
            before.insert(u, recompute_spec(before[u])),
            ds,
        )
}

/// That `order` lists the nodes that `c` reaches, each once, and every node
/// after all the nodes that feed it.
pub open spec fn is_schedule(g: Graph, c: usize, order: Seq<NodeId>) -> bool {
    &&& order.no_duplicates()
    &&& forall|n: usize| #[trigger] order.contains(NodeId(n)) <==> g.reaches(c, n)
    &&& forall|i: int, j: int|
        0 <= i < order.len() && 0 <= j < order.len() && #[trigger] g.feeds(order[i].0, order[j].0)
            ==> i < j
}

/// That the ranks of the nodes of `order` never fall from one to the next.
pub open spec fn rising(rank_of: Map<usize, usize>, order: Seq<NodeId>) -> bool {
    forall|i: int, j: int|
        0 <= i <= j < order.len() ==> rank_of[(#[trigger] order[i]).0] <= rank_of[(
        #[trigger] order[j]).0]
}

/// That `order` goes by rank: all nodes of one rank come before any of the
/// next, the ranks counted from `c`.
pub open spec fn by_ranks(g: Graph, c: usize, order: Seq<NodeId>) -> bool {
    exists|rank_of: Map<usize, usize>| #[trigger] ranks_from(g, c, rank_of) && rising(rank_of, order)
}

/// What a node that `c` reaches is while the change goes through: fed along
/// `ds`, and recomputed if its turn has come.
pub open spec fn staged(
    x: NodesView,
    ds: Seq<Wire>,
    nodes: Map<usize, NodesView>,
    solved: bool,
) -> NodesView {
    if solved {
        recompute_spec(delivered(x, ds, nodes))
    } else {
        delivered(x, ds, nodes)
    }
}

/// The deliveries of `log` that went to the node `n`, in their order.
pub open spec fn fed_of(log: Seq<Wire>, n: usize) -> Seq<Wire>
    decreases log.len(),
{
    if log.len() == 0 {
        Seq::empty()
    } else if log.last().to == n {
        fed_of(log.drop_last(), n).push(log.last())
    } else {
        fed_of(log.drop_last(), n)
    }
}

/// That `cur` has the nodes of `before`, each with as many output pins.
pub open spec fn shape_kept(before: Map<usize, NodesView>, cur: Map<usize, NodesView>) -> bool {
    &&& forall|n: usize| #[trigger] cur.contains_key(n) <==> before.contains_key(n)
    &&& forall|n: usize|
        #[trigger] before.contains_key(n) ==> cur[n].outputs.len() == before[n].outputs.len()
}

/// That the nodes which `c` does not reach are as they were.
pub open spec fn rest_kept(
    before: Map<usize, NodesView>,
    g: Graph,
    c: usize,
    cur: Map<usize, NodesView>,
) -> bool {
    forall|n: usize| #[trigger] before.contains_key(n) && !g.reaches(c, n) ==> cur[n] == before[n]
}

/// That every delivery of `log` went along a connection of the graph, from
/// a node that `c` reaches and that has recomputed, and none was made twice.
pub open spec fn log_sound(g: Graph, c: usize, log: Seq<Wire>, solved: Set<usize>) -> bool {
    &&& log.no_duplicates()
    &&& forall|k: int|
        0 <= k < log.len() ==> g.carries(#[trigger] log[k]) && solved.contains(log[k].from)
            && g.reaches(c, log[k].from)
}

/// What holds while a change of `c` goes through the graph: `cur` are the
/// nodes now, `solved` those that have recomputed, `log` the deliveries
/// made.
#[verifier::opaque]
pub open spec fn solving(
    before: Map<usize, NodesView>,
    wires: Set<Wire>,
    c: usize,
    cur: Map<usize, NodesView>,
    log: Seq<Wire>,
    solved: Set<usize>,
) -> bool {
    let g = graph_of(before, wires);
    &&& shape_kept(before, cur)
    &&& rest_kept(before, g, c, cur)
    &&& forall|n: usize|
        #[trigger] g.reaches(c, n) ==> cur[n] == staged(
            before[n],
            fed_of(log, n),
            cur,
            solved.contains(n),
        )
    &&& log_sound(g, c, log, solved)
    &&& forall|n: usize| #[trigger] solved.contains(n) ==> g.reaches(c, n)
}

/// Deliveries come out the same from two sets of nodes that agree on the
/// sources.
pub(crate) proof fn lemma_delivered_frame(
    x: NodesView,
    ds: Seq<Wire>,
    a: Map<usize, NodesView>,
    b: Map<usize, NodesView>,
)
    requires
        forall|k: int| 0 <= k < ds.len() ==> a[(#[trigger] ds[k]).from] == b[ds[k].from],
    ensures
        delivered(x, ds, a) == delivered(x, ds, b),
    decreases ds.len(),
{
    if ds.len() > 0 {
        let rest = ds.drop_last();
        assert forall|k: int| 0 <= k < rest.len() implies a[(#[trigger] rest[k]).from]
            == b[rest[k].from] by {
            assert(rest[k] == ds[k]);
        }
        lemma_delivered_frame(x, rest, a, b);
        assert(a[ds[ds.len() - 1].from] == b[ds[ds.len() - 1].from]);
    }
}

/// A delivery along one more connection.
pub(crate) proof fn lemma_delivered_push(
    x: NodesView,
    ds: Seq<Wire>,
    w: Wire,
    nodes: Map<usize, NodesView>,
)
    ensures
        delivered(x, ds.push(w), nodes) == accept_spec(
            delivered(x, ds, nodes),
            w.input as int,
            emit_spec(nodes[w.from], w.output as int),
        ),
{
    assert(ds.push(w).drop_last() =~= ds);
}

/// What a list holds after one more was added.
pub(crate) proof fn lemma_push_contains(s: Seq<Wire>, w: Wire, x: Wire)
    ensures
        s.push(w).contains(x) <==> s.contains(x) || x == w,
{
    let t = s.push(w);
    if t.contains(x) {
        let a = choose|a: int| 0 <= a < t.len() && t[a] == x;
        if a < s.len() {
            assert(s[a] == x);
        }
    }
    if s.contains(x) {
        let a = choose|a: int| 0 <= a < s.len() && s[a] == x;
        assert(t[a] == x);
    }
    if x == w {
        assert(t[s.len() as int] == x);
    }
}

/// A list without repeats stays so when something new is added.
pub(crate) proof fn lemma_push_fresh(s: Seq<Wire>, w: Wire)
    requires
        s.no_duplicates(),
        !s.contains(w),
    ensures
        s.push(w).no_duplicates(),
{
    let t = s.push(w);
    assert forall|a: int, b: int| 0 <= a < t.len() && 0 <= b < t.len() && a != b implies t[a]
        != t[b] by {
        if a == s.len() {
            assert(s.contains(s[b]));
        } else if b == s.len() {
            assert(s.contains(s[a]));
        }
    }
}

/// The deliveries that went to `n` are those of the log that lead to `n`.
pub(crate) proof fn lemma_fed_contains(log: Seq<Wire>, n: usize, w: Wire)
    ensures
        fed_of(log, n).contains(w) <==> log.contains(w) && w.to == n,
    decreases log.len(),
{
    if log.len() > 0 {
        let rest = log.drop_last();
        lemma_fed_contains(rest, n, w);
        assert(rest.push(log.last()) =~= log);
        lemma_push_contains(rest, log.last(), w);
        if log.last().to == n {
            lemma_push_contains(fed_of(rest, n), log.last(), w);
        }
    }
}

/// Where no delivery was made twice, none to `n` was.
pub(crate) proof fn lemma_fed_no_duplicates(log: Seq<Wire>, n: usize)
    requires
        log.no_duplicates(),
    ensures
        fed_of(log, n).no_duplicates(),
    decreases log.len(),
{
    if log.len() > 0 {
        let rest = log.drop_last();
        lemma_fed_no_duplicates(rest, n);
        if log.last().to == n {
            lemma_fed_contains(rest, n, log.last());
            if rest.contains(log.last()) {
                let a = choose|a: int| 0 <= a < rest.len() && rest[a] == log.last();
                assert(log[a] == log[log.len() - 1]);
            }
            lemma_push_fresh(fed_of(rest, n), log.last());
        }
    }
}

/// The sources of what a node received have recomputed.
proof fn lemma_fed_sources(
    g: Graph,
    c: usize,
    log: Seq<Wire>,
    solved: Set<usize>,
    n: usize,
    k: int,
)
    requires
        log_sound(g, c, log, solved),
        0 <= k < fed_of(log, n).len(),
    ensures
        solved.contains(fed_of(log, n)[k].from),
{
    let w = fed_of(log, n)[k];
    assert(fed_of(log, n).contains(w));
    lemma_fed_contains(log, n, w);
    let j = choose|j: int| 0 <= j < log.len() && log[j] == w;
    assert(g.carries(log[j]));
}

/// Before anything was done, nothing was delivered and no node has
/// recomputed.
pub(crate) proof fn lemma_solving_start(before: Map<usize, NodesView>, wires: Set<Wire>, c: usize)
    ensures
        solving(before, wires, c, before, Seq::<Wire>::empty(), Set::<usize>::empty()),
{
    reveal(solving);
}

/// The turn of one node: it recomputes.
pub(crate) proof fn lemma_solving_recompute(
    before: Map<usize, NodesView>,
    wires: Set<Wire>,
    c: usize,
    cur: Map<usize, NodesView>,
    log: Seq<Wire>,
    solved: Set<usize>,
    id: usize,
    next: NodesView,
)
    requires
        solving(before, wires, c, cur, log, solved),
        graph_of(before, wires).reaches(c, id),
        before.contains_key(id),
        !solved.contains(id),
        next == recompute_spec(cur[id]),
        next.outputs.len() == cur[id].outputs.len(),
    ensures
        solving(before, wires, c, cur.insert(id, next), log, solved.insert(id)),
{
    reveal(solving);
    let g = graph_of(before, wires);
    let cur2 = cur.insert(id, next);
    let solved2 = solved.insert(id);
    assert forall|n: usize| #[trigger] g.reaches(c, n) implies cur2[n] == staged(
        before[n],
        fed_of(log, n),
        cur2,
        solved2.contains(n),
    ) by {
        let ds = fed_of(log, n);
        assert forall|k: int| 0 <= k < ds.len() implies cur[(#[trigger] ds[k]).from]
            == cur2[ds[k].from] by {
            lemma_fed_sources(g, c, log, solved, n, k);
        }
        lemma_delivered_frame(before[n], ds, cur, cur2);
    }
    assert(log_sound(g, c, log, solved2));
}

/// One delivery, from a node that has recomputed to one that has not.
pub(crate) proof fn lemma_solving_deliver(
    before: Map<usize, NodesView>,
    wires: Set<Wire>,
    c: usize,
    cur: Map<usize, NodesView>,
    log: Seq<Wire>,
    solved: Set<usize>,
    w: Wire,
)
    requires
        solving(before, wires, c, cur, log, solved),
        graph_of(before, wires).carries(w),
        solved.contains(w.from),
        !solved.contains(w.to),
        !log.contains(w),
    ensures
        graph_of(before, wires).reaches(c, w.to),
        solving(
            before,
            wires,
            c,
            cur.insert(
                w.to,
                accept_spec(cur[w.to], w.input as int, emit_spec(cur[w.from], w.output as int)),
            ),
            log.push(w),
            solved,
        ),
{
    reveal(solving);
    let g = graph_of(before, wires);
    let next = accept_spec(cur[w.to], w.input as int, emit_spec(cur[w.from], w.output as int));
    let cur2 = cur.insert(w.to, next);
    let log2 = log.push(w);
    assert(g.feeds(w.from, w.to)) by {
        assert(g.carries(Wire { from: w.from, output: w.output, to: w.to, input: w.input }));
    }
    crate::solver::graph::lemma_reaches_step(g, c, w.from, w.to);
    assert(log2.drop_last() =~= log);
    assert forall|n: usize| #[trigger] g.reaches(c, n) implies cur2[n] == staged(
        before[n],
        fed_of(log2, n),
        cur2,
        solved.contains(n),
    ) by {
        let ds = fed_of(log, n);
        assert forall|k: int| 0 <= k < ds.len() implies cur[(#[trigger] ds[k]).from]
            == cur2[ds[k].from] by {
            lemma_fed_sources(g, c, log, solved, n, k);
        }
        lemma_delivered_frame(before[n], ds, cur, cur2);
        if n == w.to {
            lemma_delivered_push(before[n], ds, w, cur2);
        }
    }
    lemma_push_fresh(log, w);
    assert(log_sound(g, c, log2, solved)) by {
        assert forall|k: int| 0 <= k < log2.len() implies g.carries(#[trigger] log2[k])
            && solved.contains(log2[k].from) && g.reaches(c, log2[k].from) by {
            if k < log.len() {
                assert(log2[k] == log[k]);
            }
        }
    }
}

/// Once every node that `c` reaches has recomputed and delivered along all
/// its connections, the change has gone through.
pub(crate) proof fn lemma_solving_finish(
    before: Map<usize, NodesView>,
    wires: Set<Wire>,
    c: usize,
    cur: Map<usize, NodesView>,
    log: Seq<Wire>,
    solved: Set<usize>,
)
    requires
        solving(before, wires, c, cur, log, solved),
        forall|n: usize| #[trigger] graph_of(before, wires).reaches(c, n) ==> solved.contains(n),
        forall|w: Wire|
            #[trigger] graph_of(before, wires).carries(w) && graph_of(before, wires).reaches(
                c,
                w.from,
            ) ==> log.contains(w),
    ensures
        settled(before, wires, c, cur),
{
    reveal(solving);
    let g = graph_of(before, wires);
    assert forall|n: usize| #[trigger] g.reaches(c, n) implies fed_and_recomputed(
        before,
        g,
        c,
        cur,
        n,
    ) by {
        let ds = fed_of(log, n);
        lemma_fed_no_duplicates(log, n);
        assert forall|w: Wire| #[trigger] ds.contains(w) <==> incoming(g, c, n).contains(w) by {
            lemma_fed_contains(log, n, w);
            if log.contains(w) {
                let j = choose|j: int| 0 <= j < log.len() && log[j] == w;
                assert(g.carries(log[j]));
            }
            if incoming(g, c, n).contains(w) {
                assert(g.carries(w));
            }
        }
        assert(orders(ds, incoming(g, c, n)));
    }
}

/// The turn of one node: it recomputes and delivers along all its
/// connections, none of which leads to a node that has recomputed.
pub(crate) proof fn lemma_solving_turn(
    before: Map<usize, NodesView>,
    wires: Set<Wire>,
    c: usize,
    cur: Map<usize, NodesView>,
    log: Seq<Wire>,
    solved: Set<usize>,
    u: usize,
    ds: Seq<Wire>,
    upto: int,
)
    requires
        solving(before, wires, c, cur, log, solved),
        graph_of(before, wires).reaches(c, u),
        before.contains_key(u),
        !solved.contains(u),
        recompute_spec(cur[u]).outputs.len() == cur[u].outputs.len(),
        orders(ds, outgoing(graph_of(before, wires), u)),
        forall|k: int| 0 <= k < ds.len() ==> !solved.insert(u).contains((#[trigger] ds[k]).to),
        0 <= upto <= ds.len(),
    ensures
        solving(
            before,
            wires,
            c,
            pushed(cur.insert(u, recompute_spec(cur[u])), ds.take(upto)),
            log + ds.take(upto),
            solved.insert(u),
        ),
    decreases upto,
{
    let g = graph_of(before, wires);
    let start = cur.insert(u, recompute_spec(cur[u]));
    if upto == 0 {
        lemma_solving_recompute(before, wires, c, cur, log, solved, u, recompute_spec(cur[u]));
        assert(ds.take(0) =~= Seq::<Wire>::empty());
        assert(log + ds.take(0) =~= log);
    } else {
        lemma_solving_turn(before, wires, c, cur, log, solved, u, ds, upto - 1);
        let part = ds.take(upto - 1);
        let w = ds[upto - 1];
        let so_far = pushed(start, part);
        let logged = log + part;
        assert(ds.take(upto).drop_last() =~= part);
        assert(ds.take(upto).last() == w);
        assert(log + ds.take(upto) =~= logged.push(w));
        assert(ds.contains(w));
        assert(outgoing(g, u).contains(w));
        assert(!logged.contains(w)) by {
            if logged.contains(w) {
                let k = choose|k: int| 0 <= k < logged.len() && logged[k] == w;
                if k < log.len() {
                    reveal(solving);
                    assert(solved.contains(log[k].from));
                } else {
                    assert(ds[k - log.len()] == ds[upto - 1]);
                }
            }
        }
        lemma_solving_deliver(before, wires, c, so_far, logged, solved.insert(u), w);
    }
}

/// While a change goes through, the graph keeps its shape.
pub(crate) proof fn lemma_solving_shape(
    before: Map<usize, NodesView>,
    wires: Set<Wire>,
    c: usize,
    cur: Map<usize, NodesView>,
    log: Seq<Wire>,
    solved: Set<usize>,
)
    requires
        solving(before, wires, c, cur, log, solved),
    ensures
        shape_kept(before, cur),
        graph_of(cur, wires) == graph_of(before, wires),
        log_sound(graph_of(before, wires), c, log, solved),
        forall|n: usize| #[trigger] solved.contains(n) ==> graph_of(before, wires).reaches(c, n),
{
    reveal(solving);
    assert(graph_of(cur, wires).outs =~= graph_of(before, wires).outs);
}

} // verus!
