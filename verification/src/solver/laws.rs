use vstd::prelude::*;
use crate::nodes::model::{computed, emit_spec, received, recompute_spec, NodesView, PinView};
use crate::solver::flow::{
    delivered, fed_and_recomputed, incoming, is_schedule, lemma_delivered_frame, orders, settled,
};
use crate::solver::graph::{graph_of, lemma_walk_nodes, lemma_walk_push, Graph, Wire};
use crate::solver::ranking::ranks_from;
use crate::solver::NodeId;
use crate::values::ValuesView;

verus! {

/// A change that has gone through leaves the graph its shape: the same
/// nodes, each with as many output pins, so that the same walks lead through
/// it as before.
pub proof fn lemma_settled_keeps_shape(
    before: Map<usize, NodesView>,
    wires: Set<Wire>,
    c: usize,
    after: Map<usize, NodesView>,
)
    requires
        settled(before, wires, c, after),
    ensures
        graph_of(after, wires) == graph_of(before, wires),
{
    assert(graph_of(after, wires).outs =~= graph_of(before, wires).outs);
}

/// No walk from the changed node to a ranked node has more hops than the
/// rank of that node.
pub proof fn lemma_rank_bounds_walks(
    g: Graph,
    c: usize,
    rank_of: Map<usize, usize>,
    p: Seq<usize>,
    k: int,
)
    requires
        ranks_from(g, c, rank_of),
        g.is_walk(p),
        p[0] == c,
        0 <= k < p.len(),
    ensures
        rank_of.contains_key(p[k]),
        k <= rank_of[p[k]],
    decreases k,
{
    if k > 0 {
        lemma_rank_bounds_walks(g, c, rank_of, p, k - 1);
        assert(g.feeds(p[k - 1], p[k - 1 + 1]));
    }
}

/// Some walk from the changed node to a ranked node has as many hops as the
/// rank of that node. With the law before: the rank of a node is the number
/// of hops of the longest walk that leads to it.
pub proof fn lemma_rank_walk(g: Graph, c: usize, rank_of: Map<usize, usize>, v: usize)
    requires
        ranks_from(g, c, rank_of),
        rank_of.contains_key(v),
    ensures
        exists|p: Seq<usize>| #[trigger]
            g.is_walk(p) && p[0] == c && p.last() == v && p.len() == rank_of[v] + 1,
    decreases rank_of[v],
{
    if v == c {
        assert(g.reaches(c, c));
        let q = choose|q: Seq<usize>| #[trigger] g.is_walk(q) && q[0] == c && q.last() == c;
        let p = seq![c];
        assert(g.is_walk(p) && p[0] == c && p.last() == v && p.len() == rank_of[v] + 1);
    } else {
        let u = choose|u: usize| #[trigger]
            g.feeds(u, v) && rank_of.contains_key(u) && rank_of[u] + 1 == rank_of[v];
        lemma_rank_walk(g, c, rank_of, u);
        let q = choose|q: Seq<usize>| #[trigger]
            g.is_walk(q) && q[0] == c && q.last() == u && q.len() == rank_of[u] + 1;
        lemma_walk_push(g, q, v);
        let p = q.push(v);
        assert(g.is_walk(p) && p[0] == c && p.last() == v && p.len() == rank_of[v] + 1);
    }
}

/// That no input pin has two connections.
pub open spec fn single_producer(wires: Set<Wire>) -> bool {
    forall|a: Wire, b: Wire|
        #[trigger] wires.contains(a) && #[trigger] wires.contains(b) && a.to == b.to && a.input
            == b.input ==> a == b
}

/// That every node has the pins of its kind.
pub open spec fn well_formed(nodes: Map<usize, NodesView>) -> bool {
    forall|n: usize| #[trigger] nodes.contains_key(n) ==> nodes[n].wf()
}

/// The input pin `p` of `x` after a delivery along each of `ds`, in this
/// order.
pub open spec fn fed_pin(x: NodesView, ds: Seq<Wire>, nodes: Map<usize, NodesView>, p: int) -> PinView
    decreases ds.len(),
{
    if ds.len() == 0 {
        x.inputs[p]
    } else {
        let w = ds.last();
        let held = fed_pin(x, ds.drop_last(), nodes, p);
        if w.input == p {
            received(x.core, p, held, emit_spec(nodes[w.from], w.output as int))
        } else {
            held
        }
    }
}

/// Deliveries change the input pins only, each by what was delivered to it.
proof fn lemma_delivered_pins(x: NodesView, ds: Seq<Wire>, nodes: Map<usize, NodesView>)
    ensures
        delivered(x, ds, nodes).core == x.core,
        delivered(x, ds, nodes).outputs == x.outputs,
        delivered(x, ds, nodes).inputs.len() == x.inputs.len(),
        forall|p: int|
            0 <= p < x.inputs.len() ==> #[trigger] delivered(x, ds, nodes).inputs[p] == fed_pin(
                x,
                ds,
                nodes,
                p,
            ),
    decreases ds.len(),
{
    if ds.len() > 0 {
        lemma_delivered_pins(x, ds.drop_last(), nodes);
    }
}

/// That no two of `ds` lead to the same input pin.
pub open spec fn distinct_inputs(ds: Seq<Wire>) -> bool {
    forall|i: int, j: int| 0 <= i < j < ds.len() ==> (#[trigger] ds[i]).input != (#[trigger] ds[j]).input
}

/// Where no two deliveries lead to the same pin, a pin is what it was, or
/// has received once what the one connection to it brought.
proof fn lemma_fed_pin_once(x: NodesView, ds: Seq<Wire>, nodes: Map<usize, NodesView>, p: int)
    requires
        distinct_inputs(ds),
    ensures
        (forall|k: int| 0 <= k < ds.len() ==> (#[trigger] ds[k]).input != p) ==> fed_pin(
            x,
            ds,
            nodes,
            p,
        ) == x.inputs[p],
        forall|k: int|
            0 <= k < ds.len() && (#[trigger] ds[k]).input == p ==> fed_pin(x, ds, nodes, p)
                == received(
                x.core,
                p,
                x.inputs[p],
                emit_spec(nodes[ds[k].from], ds[k].output as int),
            ),
    decreases ds.len(),
{
    if ds.len() > 0 {
        let rest = ds.drop_last();
        assert(distinct_inputs(rest)) by {
            assert forall|i: int, j: int| 0 <= i < j < rest.len() implies (#[trigger] rest[i]).input
                != (#[trigger] rest[j]).input by {
                assert(rest[i] == ds[i] && rest[j] == ds[j]);
            }
        }
        lemma_fed_pin_once(x, rest, nodes, p);
        let last = ds.len() - 1;
        if ds[last].input == p {
            assert forall|k: int| 0 <= k < rest.len() implies (#[trigger] rest[k]).input != p by {
                assert(rest[k] == ds[k]);
                assert(ds[k].input != ds[last].input);
            }
        } else {
            assert forall|k: int| 0 <= k < ds.len() && (#[trigger] ds[k]).input == p implies fed_pin(
                x,
                ds,
                nodes,
                p,
            ) == received(
                x.core,
                p,
                x.inputs[p],
                emit_spec(nodes[ds[k].from], ds[k].output as int),
            ) by {
                assert(rest[k] == ds[k]);
            }
            if forall|k: int| 0 <= k < ds.len() ==> (#[trigger] ds[k]).input != p {
                assert forall|k: int| 0 <= k < rest.len() implies (#[trigger] rest[k]).input != p by {
                    assert(rest[k] == ds[k]);
                }
            }
        }
    }
}

/// A pin that has received takes the same values when it receives the same
/// once more, whether or not it was marked as consumed in between.
proof fn lemma_received_again(
    core: crate::nodes::model::NodeCore,
    p: int,
    held: PinView,
    v: ValuesView,
)
    ensures
        received(
            core,
            p,
            PinView { values: received(core, p, held, v).values, dirty: false },
            v,
        ).values == received(core, p, held, v).values,
{
    let once = received(core, p, held, v);
    let again = received(core, p, PinView { values: once.values, dirty: false }, v);
    match v.numbers() {
        Some(s) => {
            let first_w = if s.len() > 0 {
                s[0]
            } else {
                crate::number::Number { bits: crate::nodes::model::DEFAULT_WIDTH_BITS }
            };
            let first_h = if s.len() > 0 {
                s[0]
            } else {
                crate::number::Number { bits: crate::nodes::model::DEFAULT_HEIGHT_BITS }
            };
            let before = crate::nodes::model::held_numbers(held.values);
            if before.len() == 0 {
                assert(seq![first_w].update(0, first_w) =~= seq![first_w]);
                assert(seq![first_h].update(0, first_h) =~= seq![first_h]);
            } else {
                assert(before.update(0, first_w).update(0, first_w) =~= before.update(0, first_w));
                assert(before.update(0, first_h).update(0, first_h) =~= before.update(0, first_h));
            }
        },
        None => {},
    }
}

/// The connections into one node, where no input pin has two, lead to
/// distinct pins.
proof fn lemma_incoming_distinct(g: Graph, c: usize, n: usize, ds: Seq<Wire>)
    requires
        single_producer(g.wires),
        orders(ds, incoming(g, c, n)),
    ensures
        distinct_inputs(ds),
{
    assert forall|i: int, j: int| 0 <= i < j < ds.len() implies (#[trigger] ds[i]).input != (
    #[trigger] ds[j]).input by {
        assert(ds.contains(ds[i]) && ds.contains(ds[j]));
        assert(incoming(g, c, n).contains(ds[i]) && incoming(g, c, n).contains(ds[j]));
    }
}

/// The node `n` after it was fed along `ds` and recomputed, then fed again
/// along `es`, which lists the same connections, and recomputed again, is
/// what it was after the first time.
proof fn lemma_node_twice(
    x: NodesView,
    ds: Seq<Wire>,
    es: Seq<Wire>,
    nodes: Map<usize, NodesView>,
)
    requires
        x.wf(),
        distinct_inputs(ds),
        distinct_inputs(es),
        forall|w: Wire| #[trigger] ds.contains(w) <==> es.contains(w),
    ensures
        recompute_spec(delivered(recompute_spec(delivered(x, ds, nodes)), es, nodes))
            == recompute_spec(delivered(x, ds, nodes)),
{
    let y1 = delivered(x, ds, nodes);
    let r1 = recompute_spec(y1);
    let y2 = delivered(r1, es, nodes);
    let r2 = recompute_spec(y2);
    lemma_delivered_pins(x, ds, nodes);
    lemma_delivered_pins(r1, es, nodes);
    assert forall|p: int| 0 <= p < x.inputs.len() implies (#[trigger] y2.inputs[p]).values
        == y1.inputs[p].values by {
        lemma_fed_pin_once(x, ds, nodes, p);
        lemma_fed_pin_once(r1, es, nodes, p);
        if exists|k: int| 0 <= k < ds.len() && (#[trigger] ds[k]).input == p {
            let k = choose|k: int| 0 <= k < ds.len() && (#[trigger] ds[k]).input == p;
            let w = ds[k];
            assert(ds.contains(w));
            assert(es.contains(w));
            let m = choose|m: int| 0 <= m < es.len() && es[m] == w;
            assert(es[m].input == p);
            let v = emit_spec(nodes[w.from], w.output as int);
            lemma_received_again(x.core, p, x.inputs[p], v);
            assert(r1.inputs[p] == PinView { values: y1.inputs[p].values, dirty: false });
        } else {
            if exists|m: int| 0 <= m < es.len() && (#[trigger] es[m]).input == p {
                let m = choose|m: int| 0 <= m < es.len() && (#[trigger] es[m]).input == p;
                assert(es.contains(es[m]));
                assert(ds.contains(es[m]));
                let k = choose|k: int| 0 <= k < ds.len() && ds[k] == es[m];
                assert(ds[k].input == p);
            }
            assert(fed_pin(r1, es, nodes, p) == r1.inputs[p]);
        }
    }
    assert(r2.inputs =~= r1.inputs);
    assert(computed(x.core, y2.inputs, y2.outputs) =~= computed(x.core, y1.inputs, y1.outputs)) by {
        assert(y2.outputs == r1.outputs);
        assert(y1.outputs == x.outputs);
    }
}

/// A change that goes through the graph a second time, with nothing done in
/// between, leaves every node as the first time left it.
///
/// This holds where no input pin has two connections: of two that lead to
/// one pin, either may come last.
pub proof fn lemma_solve_twice(
    first: Map<usize, NodesView>,
    wires: Set<Wire>,
    c: usize,
    order: Seq<NodeId>,
    second: Map<usize, NodesView>,
    third: Map<usize, NodesView>,
)
    requires
        well_formed(first),
        single_producer(wires),
        is_schedule(graph_of(first, wires), c, order),
        settled(first, wires, c, second),
        settled(second, wires, c, third),
    ensures
        third == second,
{
    let g = graph_of(first, wires);
    lemma_settled_keeps_shape(first, wires, c, second);
    lemma_twice_upto(first, wires, c, order, second, third, order.len() as int);
    assert forall|n: usize| third.contains_key(n) implies third[n] == second[n] by {
        if g.reaches(c, n) {
            assert(order.contains(NodeId(n)));
            let i = choose|i: int| 0 <= i < order.len() && order[i] == NodeId(n);
            assert(order[i].0 == n);
        } else {
            assert(second.contains_key(n));
        }
    }
    assert(third =~= second);
}

/// The first `t` nodes of the schedule are the same after the second time
/// as after the first.
proof fn lemma_twice_upto(
    first: Map<usize, NodesView>,
    wires: Set<Wire>,
    c: usize,
    order: Seq<NodeId>,
    second: Map<usize, NodesView>,
    third: Map<usize, NodesView>,
    t: int,
)
    requires
        well_formed(first),
        single_producer(wires),
        is_schedule(graph_of(first, wires), c, order),
        settled(first, wires, c, second),
        settled(second, wires, c, third),
        graph_of(second, wires) == graph_of(first, wires),
        0 <= t <= order.len(),
    ensures
        forall|i: int| 0 <= i < t ==> third[(#[trigger] order[i]).0] == second[order[i].0],
    decreases t,
{
    if t > 0 {
        lemma_twice_upto(first, wires, c, order, second, third, t - 1);
        let g = graph_of(first, wires);
        let n = order[t - 1].0;
        assert(order.contains(order[t - 1]));
        assert(NodeId(n) == order[t - 1]);
        assert(g.reaches(c, n));
        let p = choose|p: Seq<usize>| #[trigger] g.is_walk(p) && p[0] == c && p.last() == n;
        lemma_walk_nodes(g, p, p.len() - 1);
        assert(first.contains_key(n));
        assert(fed_and_recomputed(first, g, c, second, n));
        assert(fed_and_recomputed(second, g, c, third, n));
        let ds = choose|ds: Seq<Wire>| #[trigger]
            orders(ds, incoming(g, c, n)) && second[n] == recompute_spec(
                delivered(first[n], ds, second),
            );
        let es = choose|es: Seq<Wire>| #[trigger]
            orders(es, incoming(g, c, n)) && third[n] == recompute_spec(
                delivered(second[n], es, third),
            );
        assert forall|k: int| 0 <= k < es.len() implies third[(#[trigger] es[k]).from]
            == second[es[k].from] by {
            let w = es[k];
            assert(es.contains(w));
            assert(incoming(g, c, n).contains(w));
            assert(g.feeds(w.from, n)) by {
                assert(g.carries(Wire { from: w.from, output: w.output, to: n, input: w.input }));
            }
            assert(order.contains(NodeId(w.from)));
            let j = choose|j: int| 0 <= j < order.len() && order[j] == NodeId(w.from);
            assert(g.feeds(order[j].0, order[t - 1].0));
            assert(j < t - 1);
        }
        lemma_delivered_frame(second[n], es, third, second);
        lemma_incoming_distinct(g, c, n, ds);
        lemma_incoming_distinct(g, c, n, es);
        assert(first[n].wf());
        lemma_node_twice(first[n], ds, es, second);
    }
}

} // verus!
