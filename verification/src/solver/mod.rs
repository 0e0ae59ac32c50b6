use vstd::prelude::*;
use egui_snarl::Snarl;
use crate::nodes::model::{emit_spec, recompute_spec, NodesView};
use crate::nodes::Nodes;
use crate::pins::{InputPinId, OutputPinId};
use crate::solver::flow::{
    by_ranks, is_schedule, lemma_push_contains, lemma_push_fresh, lemma_solving_finish,
    lemma_solving_shape, lemma_solving_start, lemma_solving_turn, node_solved, orders, outgoing,
    pushed, rising, settled, shape_kept, solving,
};
use crate::solver::graph::{graph_of, Graph, Wire};
use crate::solver::marker::Marker;
use crate::solver::ranking::ranks_from;
use crate::solver::store::{
    get_downstream_nodes, node_mut, node_ref, snarl_nodes, snarl_wires, topology,
};

pub mod flow;
pub mod graph;
pub mod laws;
pub mod marker;
pub mod ranking;
pub mod store;

verus! {

/// Identifier of a node within one graph.
#[derive(Debug, Clone, Copy, PartialEq, Eq, Structural, PartialOrd, Ord, Hash)]
pub struct NodeId(pub usize);

/// Why a solve did not run.
#[derive(Debug, Clone, Copy, PartialEq, Eq, Structural)]
pub enum SolveError {
    /// A walk from the changed node comes by some node twice.
    Cycle,
    /// The graph holds no node under the identifier given.
    UnknownNode,
}

/// The nodes among the first `t` of `order`.
spec fn done(order: Seq<NodeId>, t: int) -> Set<usize> {
    Set::new(|n: usize| exists|i: int| 0 <= i < t && i < order.len() && #[trigger] order[i] == NodeId(n))
}

/// That a delivery was made along every connection that carries values
/// from `u`.
spec fn sent_from(g: Graph, log: Seq<Wire>, u: usize) -> bool {
    forall|w: Wire| #[trigger] g.carries(w) && w.from == u ==> log.contains(w)
}

/// That every one of the first `t` of `order` has delivered along all its
/// connections.
spec fn all_sent(g: Graph, log: Seq<Wire>, order: Seq<NodeId>, t: int) -> bool {
    forall|i: int| 0 <= i < t ==> sent_from(g, log, (#[trigger] order[i]).0)
}

/// That a delivery was made along every connection that carries values
/// from an output pin of `u` below `o`.
spec fn sent_below(g: Graph, log: Seq<Wire>, u: usize, o: usize) -> bool {
    forall|w: Wire| #[trigger] g.carries(w) && w.from == u && w.output < o ==> log.contains(w)
}

/// That a delivery was made to every one of the first `j` of `remotes`.
spec fn sent_among(
    log: Seq<Wire>,
    u: usize,
    o: usize,
    remotes: Seq<(NodeId, InputPinId)>,
    j: int,
) -> bool {
    forall|m: int|
        0 <= m < j ==> log.contains(
            Wire { from: u, output: o, to: (#[trigger] remotes[m]).0.0, input: remotes[m].1.0 },
        )
}

/// That `w` leaves from an output pin of its source below `o`, or from `o`
/// to one of the first `j` of `remotes`.
spec fn within(w: Wire, o: usize, remotes: Seq<(NodeId, InputPinId)>, j: int) -> bool {
    w.output < o || (w.output == o && exists|m: int|
        0 <= m < j && #[trigger] remotes[m] == (NodeId(w.to), InputPinId(w.input)))
}

/// That no delivery from `u` was made beyond the output pin `o` and the
/// first `j` of `remotes`.
spec fn none_beyond(
    log: Seq<Wire>,
    u: usize,
    o: usize,
    remotes: Seq<(NodeId, InputPinId)>,
    j: int,
) -> bool {
    forall|k: int| 0 <= k < log.len() && (#[trigger] log[k]).from == u ==> within(log[k], o, remotes, j)
}

/// The first `t + 1` of `order` are the first `t` and the one after them.
proof fn lemma_done_next(order: Seq<NodeId>, t: int)
    requires
        0 <= t < order.len(),
    ensures
        done(order, t + 1) == done(order, t).insert(order[t].0),
{
    assert forall|n: usize| done(order, t + 1).contains(n) <==> done(order, t).insert(
        order[t].0,
    ).contains(n) by {
        if done(order, t + 1).contains(n) {
            let i = choose|i: int| 0 <= i < t + 1 && i < order.len() && #[trigger] order[i] == NodeId(n);
            if i < t {
                assert(done(order, t).contains(n));
            }
        }
        if done(order, t).contains(n) {
            let i = choose|i: int| 0 <= i < t && i < order.len() && #[trigger] order[i] == NodeId(n);
            assert(0 <= i < t + 1 && order[i] == NodeId(n));
        }
        if n == order[t].0 {
            assert(order[t] == NodeId(n));
        }
    }
    assert(done(order, t + 1) =~= done(order, t).insert(order[t].0));
}

/// A node that one of the first `t + 1` of a schedule feeds is not among
/// them.
proof fn lemma_target_waits(g: Graph, c: usize, order: Seq<NodeId>, t: int, d: usize)
    requires
        is_schedule(g, c, order),
        0 <= t < order.len(),
        g.feeds(order[t].0, d),
        g.reaches(c, d),
    ensures
        !done(order, t + 1).contains(d),
{
    assert(order.contains(NodeId(d)));
    let j = choose|j: int| 0 <= j < order.len() && order[j] == NodeId(d);
    assert(g.feeds(order[t].0, order[j].0));
    if done(order, t + 1).contains(d) {
        let i = choose|i: int| 0 <= i < t + 1 && i < order.len() && #[trigger] order[i] == NodeId(d);
        assert(i == j);
    }
}

/// The order of a rank table is a schedule.
proof fn lemma_order_is_schedule(g: Graph, c: usize, rank_of: Map<usize, usize>, order: Seq<NodeId>)
    requires
        ranks_from(g, c, rank_of),
        order.no_duplicates(),
        forall|n: usize| #[trigger] order.contains(NodeId(n)) <==> rank_of.contains_key(n),
        forall|i: int, j: int|
            0 <= i <= j < order.len() ==> rank_of[(#[trigger] order[i]).0] <= rank_of[(
            #[trigger] order[j]).0],
    ensures
        is_schedule(g, c, order),
{
    assert forall|n: usize| #[trigger] order.contains(NodeId(n)) <==> g.reaches(c, n) by {
        assert(rank_of.contains_key(n) <==> g.reaches(c, n));
    }
    assert forall|i: int, j: int|
        0 <= i < order.len() && 0 <= j < order.len() && #[trigger] g.feeds(
            order[i].0,
            order[j].0,
        ) implies i < j by {
        assert(order.contains(order[i]));
        assert(NodeId(order[i].0) == order[i]);
        assert(rank_of.contains_key(order[i].0));
        if j <= i {
            assert(rank_of[order[j].0] <= rank_of[order[i].0]);
        }
    }
}

/// That `item` is one of the first `j` of `remotes`, on a node of the graph.
spec fn among(g: Graph, remotes: Seq<(NodeId, InputPinId)>, j: int, item: (NodeId, InputPinId)) -> bool {
    exists|m: int| 0 <= m < j && #[trigger] remotes[m] == item && g.has(remotes[m].0.0)
}

/// The input pins to which the output pin `out_id` of the node `node_id`
/// carries values, each once: those of nodes of the graph that a wire
/// connects to it. None where the graph holds no such node, or the node has
/// no such pin.
pub fn downstream_of(store: &Snarl<Nodes>, node_id: NodeId, out_id: OutputPinId) -> (r: Vec<
    (NodeId, InputPinId),
>)
    ensures
        r@.no_duplicates(),
        forall|n: usize, i: usize|
            r@.contains((NodeId(n), InputPinId(i))) <==> topology(*store).carries(
                Wire { from: node_id.0, output: out_id.0, to: n, input: i },
            ),
{
    let ghost g = topology(*store);
    let mut found: Vec<(NodeId, InputPinId)> = Vec::new();
    let outs = match node_ref(store, node_id) {
        Some(node) => node.outputs(),
        None => 0,
    };
    if out_id.0 >= outs {
        return found;
    }
    let remotes = get_downstream_nodes(store, node_id, out_id);
    let mut j: usize = 0;
    while j < remotes.len()
        invariant
            j <= remotes@.len(),
            g == topology(*store),
            g.has(node_id.0),
            out_id.0 < g.outs[node_id.0],
            remotes@.no_duplicates(),
            forall|n: usize, i: usize|
                remotes@.contains((NodeId(n), InputPinId(i))) <==> g.wires.contains(
                    Wire { from: node_id.0, output: out_id.0, to: n, input: i },
                ),
            found@.no_duplicates(),
            forall|k: int| 0 <= k < found@.len() ==> among(g, remotes@, j as int, #[trigger] found@[k]),
            forall|m: int|
                0 <= m < j && g.has((#[trigger] remotes@[m]).0.0) ==> found@.contains(remotes@[m]),
        decreases remotes@.len() - j,
    {
        let (d, input) = remotes[j];
        if node_ref(store, d).is_some() {
            proof {
                let before = found@;
                assert forall|k: int| 0 <= k < before.len() implies before[k] != (d, input) by {
                    assert(among(g, remotes@, j as int, before[k]));
                    let m = choose|m: int|
                        0 <= m < j && #[trigger] remotes@[m] == before[k] && g.has(remotes@[m].0.0);
                    assert(remotes@[m] != remotes@[j as int]);
                }
                assert forall|m: int|
                    0 <= m < j + 1 && g.has((#[trigger] remotes@[m]).0.0) implies before.push(
                    (d, input),
                ).contains(remotes@[m]) by {
                    if m < j {
                        assert(before.contains(remotes@[m]));
                        let k = choose|k: int| 0 <= k < before.len() && before[k] == remotes@[m];
                        assert(before.push((d, input))[k] == remotes@[m]);
                    } else {
                        assert(before.push((d, input))[before.len() as int] == remotes@[m]);
                    }
                }
                assert forall|k: int| 0 <= k < before.len() + 1 implies among(
                    g,
                    remotes@,
                    j + 1,
                    #[trigger] before.push((d, input))[k],
                ) by {
                    if k < before.len() {
                        assert(among(g, remotes@, j as int, before[k]));
                        let m = choose|m: int|
                            0 <= m < j && #[trigger] remotes@[m] == before[k] && g.has(
                                remotes@[m].0.0,
                            );
                        assert(0 <= m < j + 1 && remotes@[m] == before.push((d, input))[k]);
                    } else {
                        assert(remotes@[j as int] == before.push((d, input))[k]);
                    }
                }
            }
            found.push((d, input));
        } else {
            proof {
                assert forall|k: int| 0 <= k < found@.len() implies among(
                    g,
                    remotes@,
                    j + 1,
                    #[trigger] found@[k],
                ) by {
                    assert(among(g, remotes@, j as int, found@[k]));
                    let m = choose|m: int|
                        0 <= m < j && #[trigger] remotes@[m] == found@[k] && g.has(remotes@[m].0.0);
                    assert(0 <= m < j + 1);
                }
            }
        }
        j = j + 1;
    }
    proof {
        assert forall|n: usize, i: usize|
            found@.contains((NodeId(n), InputPinId(i))) <==> g.carries(
                Wire { from: node_id.0, output: out_id.0, to: n, input: i },
            ) by {
            let pair = (NodeId(n), InputPinId(i));
            if found@.contains(pair) {
                let k = choose|k: int| 0 <= k < found@.len() && found@[k] == pair;
                assert(among(g, remotes@, remotes@.len() as int, found@[k]));
                let m = choose|m: int|
                    0 <= m < remotes@.len() && #[trigger] remotes@[m] == found@[k] && g.has(
                        remotes@[m].0.0,
                    );
                assert(remotes@.contains(pair));
            }
            if g.carries(Wire { from: node_id.0, output: out_id.0, to: n, input: i }) {
                assert(remotes@.contains(pair));
                let m = choose|m: int| 0 <= m < remotes@.len() && remotes@[m] == pair;
                assert(g.has(remotes@[m].0.0));
            }
        }
    }
    found
}

/// The turn of the node `id`: it recomputes, and then delivers what it
/// offers on each output pin along every connection that leaves from it to
/// a node of the graph. What a pin does not take leaves it untouched.
///
/// Says whether the graph holds a node under `id`; where it holds none,
/// nothing is done.
pub fn solve_node(store: &mut Snarl<Nodes>, id: NodeId) -> (found: bool)
    ensures
        snarl_wires(*final(store)) == snarl_wires(*old(store)),
        found == snarl_nodes(*old(store)).contains_key(id.0),
        !found ==> snarl_nodes(*final(store)) == snarl_nodes(*old(store)),
        found ==> node_solved(
            snarl_nodes(*old(store)),
            snarl_wires(*old(store)),
            id.0,
            snarl_nodes(*final(store)),
        ),
        found ==> snarl_nodes(*old(store))[id.0].wf(),
        shape_kept(snarl_nodes(*old(store)), snarl_nodes(*final(store))),
{
    let ghost before = snarl_nodes(*store);
    let ghost wires = snarl_wires(*store);
    let ghost g = graph_of(before, wires);
    let ghost u = id.0;
    if node_ref(store, id).is_none() {
        return false;
    }
    {
        let node = node_mut(store, id);
        proof {
            node.lemma_view();
        }
        node.solve();
        proof {
            node.lemma_view();
        }
    }
    let ghost start = before.insert(u, recompute_spec(before[u]));
    let ghost mut ds: Seq<Wire> = Seq::empty();
    let outs = match node_ref(store, id) {
        Some(node) => node.outputs(),
        None => 0,
    };
    proof {
        assert(snarl_nodes(*store) =~= start);
    }
    let mut o: usize = 0;
    while o < outs
        invariant
            o <= outs,
            u == id.0,
            g == graph_of(before, wires),
            before.contains_key(u),
            before[u].wf(),
            outs == g.outs[u],
            wires == snarl_wires(*store),
            start == before.insert(u, recompute_spec(before[u])),
            snarl_nodes(*store) == pushed(start, ds),
            shape_kept(before, snarl_nodes(*store)),
            ds.no_duplicates(),
            forall|k: int| 0 <= k < ds.len() ==> g.carries(#[trigger] ds[k]) && ds[k].from == u,
            sent_below(g, ds, u, o),
            none_beyond(ds, u, o, Seq::empty(), 0),
        decreases outs - o,
    {
        let values = match node_ref(store, id) {
            Some(node) => node.values_out(OutputPinId(o)),
            None => crate::values::Values::Custom(Vec::new()),
        };
        proof {
            assert(graph_of(snarl_nodes(*store), wires).outs =~= g.outs);
            assert(topology(*store) == g);
        }
        let remotes = downstream_of(store, id, OutputPinId(o));
        proof {
            assert(none_beyond(ds, u, o, remotes@, 0)) by {
                assert forall|k: int| 0 <= k < ds.len() && (#[trigger] ds[k]).from
                    == u implies within(ds[k], o, remotes@, 0) by {
                    assert(within(ds[k], o, Seq::empty(), 0));
                }
            }
        }
        let mut j: usize = 0;
        while j < remotes.len()
            invariant
                j <= remotes@.len(),
                o < outs,
                u == id.0,
                g == graph_of(before, wires),
                before.contains_key(u),
                before[u].wf(),
                outs == g.outs[u],
                wires == snarl_wires(*store),
                start == before.insert(u, recompute_spec(before[u])),
                snarl_nodes(*store) == pushed(start, ds),
                shape_kept(before, snarl_nodes(*store)),
                remotes@.no_duplicates(),
                forall|n: usize, i: usize|
                    remotes@.contains((NodeId(n), InputPinId(i))) <==> g.carries(
                        Wire { from: u, output: o, to: n, input: i },
                    ),
                values@ == emit_spec(snarl_nodes(*store)[u], o as int),
                ds.no_duplicates(),
                forall|k: int| 0 <= k < ds.len() ==> g.carries(#[trigger] ds[k]) && ds[k].from == u,
                sent_below(g, ds, u, o),
                sent_among(ds, u, o, remotes@, j as int),
                none_beyond(ds, u, o, remotes@, j as int),
            decreases remotes@.len() - j,
        {
            let (d, input) = remotes[j];
            let ghost w = Wire { from: u, output: o, to: d.0, input: input.0 };
            proof {
                assert(remotes@.contains((NodeId(d.0), InputPinId(input.0))));
                assert(g.carries(w));
                if ds.contains(w) {
                    let k = choose|k: int| 0 <= k < ds.len() && ds[k] == w;
                    assert(within(ds[k], o, remotes@, j as int));
                    let m = choose|m: int|
                        0 <= m < j && #[trigger] remotes@[m] == (NodeId(w.to), InputPinId(w.input));
                    assert(remotes@[m] == remotes@[j as int]);
                }
                lemma_push_fresh(ds, w);
            }
            {
                let target = node_mut(store, d);
                target.push_inputs(input, &values);
            }
            proof {
                let longer = ds.push(w);
                assert(longer.drop_last() =~= ds);
                assert(snarl_nodes(*store) =~= pushed(start, longer));
                assert forall|x: Wire| ds.contains(x) implies longer.contains(x) by {
                    lemma_push_contains(ds, w, x);
                }
                lemma_push_contains(ds, w, w);
                assert(none_beyond(longer, u, o, remotes@, j + 1)) by {
                    assert forall|k: int|
                        0 <= k < longer.len() && (#[trigger] longer[k]).from == u implies within(
                        longer[k],
                        o,
                        remotes@,
                        j + 1,
                    ) by {
                        if k < ds.len() {
                            assert(longer[k] == ds[k]);
                            assert(within(ds[k], o, remotes@, j as int));
                            if ds[k].output == o {
                                let m = choose|m: int|
                                    0 <= m < j && #[trigger] remotes@[m] == (
                                        NodeId(ds[k].to),
                                        InputPinId(ds[k].input),
                                    );
                                assert(0 <= m < j + 1);
                            }
                        } else {
                            assert(remotes@[j as int] == (NodeId(w.to), InputPinId(w.input)));
                        }
                    }
                }
                assert forall|k: int| 0 <= k < longer.len() implies g.carries(#[trigger] longer[k])
                    && longer[k].from == u by {
                    if k < ds.len() {
                        assert(longer[k] == ds[k]);
                    }
                }
                ds = longer;
            }
            j = j + 1;
        }
        proof {
            assert(sent_below(g, ds, u, (o + 1) as usize)) by {
                assert forall|x: Wire| #[trigger]
                    g.carries(x) && x.from == u && x.output < o + 1 implies ds.contains(x) by {
                    if x.output == o {
                        assert(remotes@.contains((NodeId(x.to), InputPinId(x.input))));
                        let m = choose|m: int|
                            0 <= m < remotes@.len() && remotes@[m] == (
                                NodeId(x.to),
                                InputPinId(x.input),
                            );
                        assert(ds.contains(
                            Wire {
                                from: u,
                                output: o,
                                to: remotes@[m].0.0,
                                input: remotes@[m].1.0,
                            },
                        ));
                    }
                }
            }
            assert(none_beyond(ds, u, (o + 1) as usize, Seq::empty(), 0)) by {
                assert forall|k: int| 0 <= k < ds.len() && (#[trigger] ds[k]).from
                    == u implies within(ds[k], (o + 1) as usize, Seq::empty(), 0) by {
                    assert(within(ds[k], o, remotes@, remotes@.len() as int));
                }
            }
        }
        o = o + 1;
    }
    proof {
        assert forall|x: Wire| #[trigger] ds.contains(x) <==> outgoing(g, u).contains(x) by {
            if ds.contains(x) {
                let k = choose|k: int| 0 <= k < ds.len() && ds[k] == x;
                assert(g.carries(ds[k]));
            }
            if outgoing(g, u).contains(x) {
                assert(g.carries(x) && x.from == u && x.output < outs);
            }
        }
        assert(orders(ds, outgoing(g, u)));
    }
    true
}

/// Lets a change of the node `node_id` go through the graph.
///
/// The nodes that `node_id` reaches have their turn, each once, rank by
/// rank, and so each after all the nodes that feed it; the result is the
/// order in which they had it. In its turn a node recomputes and then
/// delivers what it offers along each of its connections. Nodes that
/// `node_id` does not reach are left as they are.
///
/// A range, a polar point and a canvas keep what they offer in their turn:
/// their values take arithmetic on doubles or drawing, which is not done
/// here. A program that computes them takes the order from
/// [`Marker::mark`] and [`Marker::order`], and for each node of it stores
/// what it computed and then calls [`solve_node`].
///
/// Fails, and leaves the graph as it is, where it holds no node under
/// `node_id`, and where a walk from that node comes by some node twice.
pub fn solve_starting_from(node_id: NodeId, store: &mut Snarl<Nodes>) -> (r: Result<
    Vec<NodeId>,
    SolveError,
>)
    ensures
        snarl_wires(*final(store)) == snarl_wires(*old(store)),
        match r {
            Ok(order) => {
                &&& topology(*old(store)).has(node_id.0)
                &&& !topology(*old(store)).has_cycle_from(node_id.0)
                &&& is_schedule(topology(*old(store)), node_id.0, order@)
                &&& by_ranks(topology(*old(store)), node_id.0, order@)
                &&& settled(
                    snarl_nodes(*old(store)),
                    snarl_wires(*old(store)),
                    node_id.0,
                    snarl_nodes(*final(store)),
                )
            },
            Err(SolveError::Cycle) => {
                &&& topology(*old(store)).has(node_id.0)
                &&& topology(*old(store)).has_cycle_from(node_id.0)
                &&& snarl_nodes(*final(store)) == snarl_nodes(*old(store))
            },
            Err(SolveError::UnknownNode) => {
                &&& !topology(*old(store)).has(node_id.0)
                &&& snarl_nodes(*final(store)) == snarl_nodes(*old(store))
            },
        },
{
    let ghost before = snarl_nodes(*store);
    let ghost wires = snarl_wires(*store);
    let ghost g = topology(*store);
    let ghost c = node_id.0;
    let marker = match Marker::mark(store, node_id) {
        Ok(marker) => marker,
        Err(e) => {
            return Err(e);
        },
    };
    let order = marker.order();
    proof {
        lemma_order_is_schedule(g, c, marker.rank_of(), order@);
        assert(ranks_from(g, c, marker.rank_of()) && rising(marker.rank_of(), order@));
        lemma_solving_start(before, wires, c);
        assert(done(order@, 0) =~= Set::<usize>::empty());
    }
    let ghost mut log: Seq<Wire> = Seq::empty();
    let mut t: usize = 0;
    while t < order.len()
        invariant
            t <= order@.len(),
            g == graph_of(before, wires),
            c == node_id.0,
            wires == snarl_wires(*store),
            is_schedule(g, c, order@),
            solving(before, wires, c, snarl_nodes(*store), log, done(order@, t as int)),
            all_sent(g, log, order@, t as int),
        decreases order@.len() - t,
    {
        let id = order[t];
        let ghost u = id.0;
        let ghost cur = snarl_nodes(*store);
        let ghost solved = done(order@, t as int);
        proof {
            lemma_solving_shape(before, wires, c, cur, log, solved);
            assert(order@.contains(id));
            assert(NodeId(u) == id);
            assert(g.reaches(c, u));
            let p = choose|p: Seq<usize>| #[trigger] g.is_walk(p) && p[0] == c && p.last() == u;
            crate::solver::graph::lemma_walk_nodes(g, p, p.len() - 1);
            assert(before.contains_key(u));
            if solved.contains(u) {
                let i = choose|i: int|
                    0 <= i < t && i < order@.len() && #[trigger] order@[i] == NodeId(u);
                assert(i == t);
            }
        }
        solve_node(store, id);
        proof {
            let ds = choose|ds: Seq<Wire>| #[trigger]
                orders(ds, outgoing(graph_of(cur, wires), u)) && snarl_nodes(*store) == pushed(
                    cur.insert(u, recompute_spec(cur[u])),
                    ds,
                );
            lemma_done_next(order@, t as int);
            assert forall|k: int| 0 <= k < ds.len() implies !solved.insert(u).contains(
                (#[trigger] ds[k]).to,
            ) by {
                let w = ds[k];
                assert(ds.contains(w));
                assert(outgoing(g, u).contains(w));
                assert(g.feeds(u, w.to)) by {
                    assert(g.carries(Wire { from: u, output: w.output, to: w.to, input: w.input }));
                }
                crate::solver::graph::lemma_reaches_step(g, c, u, w.to);
                lemma_target_waits(g, c, order@, t as int, w.to);
            }
            lemma_recompute_keeps_outputs(cur[u]);
            lemma_solving_turn(before, wires, c, cur, log, solved, u, ds, ds.len() as int);
            assert(ds.take(ds.len() as int) =~= ds);
            let longer = log + ds;
            assert(all_sent(g, longer, order@, t + 1)) by {
                assert forall|i: int| 0 <= i < t + 1 implies sent_from(
                    g,
                    longer,
                    (#[trigger] order@[i]).0,
                ) by {
                    assert forall|x: Wire| #[trigger]
                        g.carries(x) && x.from == order@[i].0 implies longer.contains(x) by {
                        if i == t {
                            assert(outgoing(g, u).contains(x));
                            assert(ds.contains(x));
                            let k = choose|k: int| 0 <= k < ds.len() && ds[k] == x;
                            assert(longer[log.len() + k] == x);
                        } else {
                            assert(sent_from(g, log, order@[i].0));
                            assert(log.contains(x));
                            let k = choose|k: int| 0 <= k < log.len() && log[k] == x;
                            assert(longer[k] == x);
                        }
                    }
                }
            }
            log = longer;
        }
        t = t + 1;
    }
    proof {
        let cur = snarl_nodes(*store);
        let solved = done(order@, order@.len() as int);
        assert forall|n: usize| #[trigger] g.reaches(c, n) implies solved.contains(n) by {
            assert(order@.contains(NodeId(n)));
            let i = choose|i: int| 0 <= i < order@.len() && order@[i] == NodeId(n);
            assert(0 <= i < order@.len() && order@[i] == NodeId(n));
        }
        assert forall|x: Wire| #[trigger] g.carries(x) && g.reaches(c, x.from) implies log.contains(
            x,
        ) by {
            assert(order@.contains(NodeId(x.from)));
            let i = choose|i: int| 0 <= i < order@.len() && order@[i] == NodeId(x.from);
            assert(sent_from(g, log, order@[i].0));
        }
        lemma_solving_finish(before, wires, c, cur, log, solved);
    }
    Ok(order)
}

/// A node that has the pins of its kind keeps as many output pins when it
/// recomputes.
proof fn lemma_recompute_keeps_outputs(x: NodesView)
    requires
        x.wf(),
    ensures
        recompute_spec(x).outputs.len() == x.outputs.len(),
{
}

} // verus!
