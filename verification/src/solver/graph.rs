use vstd::prelude::*;
use crate::nodes::model::NodesView;

verus! {

/// A connection from the output pin `output` of node `from` to the input pin
/// `input` of node `to`.
pub ghost struct Wire {
    pub from: usize,
    pub output: usize,
    pub to: usize,
    pub input: usize,
}

/// The shape of a graph: how many output pins each node has, and the
/// connections.
pub ghost struct Graph {
    pub outs: Map<usize, nat>,
    pub wires: Set<Wire>,
}

/// The shape of the graph with these nodes and connections.
pub open spec fn graph_of(nodes: Map<usize, NodesView>, wires: Set<Wire>) -> Graph {
    Graph { outs: Map::new(|n: usize| nodes.contains_key(n), |n: usize| nodes[n].outputs.len()), wires }
}

impl Graph {
    /// That the graph has a node `n`.
    pub open spec fn has(self, n: usize) -> bool {
        self.outs.contains_key(n)
    }

    /// That `w` is a connection along which values travel: both its ends
    /// exist, and it leaves from an output pin that its source has.
    pub open spec fn carries(self, w: Wire) -> bool {
        &&& self.wires.contains(w)
        &&& self.has(w.from)
        &&& self.has(w.to)
        &&& w.output < self.outs[w.from]
    }

    /// That some connection carries values from `u` to `v`.
    pub open spec fn feeds(self, u: usize, v: usize) -> bool {
        exists|o: usize, i: usize| #[trigger]
            self.carries(Wire { from: u, output: o, to: v, input: i })
    }

    /// That `p` is a walk: a node of the graph, then one that it feeds, and
    /// so on.
    pub open spec fn is_walk(self, p: Seq<usize>) -> bool {
        &&& p.len() > 0
        &&& self.has(p[0])
        &&& forall|k: int| 0 <= k < p.len() - 1 ==> self.feeds(#[trigger] p[k], p[k + 1])
    }

    /// That a walk leads from `a` to `b`. Every node reaches itself.
    pub open spec fn reaches(self, a: usize, b: usize) -> bool {
        exists|p: Seq<usize>| #[trigger] self.is_walk(p) && p[0] == a && p.last() == b
    }

    /// That a walk from `c` comes by some node twice.
    pub open spec fn has_cycle_from(self, c: usize) -> bool {
        exists|p: Seq<usize>| #[trigger] self.is_walk(p) && p[0] == c && !p.no_duplicates()
    }
}

/// Every node of a walk is a node of the graph.
pub(crate) proof fn lemma_walk_nodes(g: Graph, p: Seq<usize>, k: int)
    requires
        g.is_walk(p),
        0 <= k < p.len(),
    ensures
        g.has(p[k]),
{
    if k > 0 {
        assert(g.feeds(p[k - 1], p[k - 1 + 1]));
        let (o, i) = choose|o: usize, i: usize| #[trigger]
            g.carries(Wire { from: p[k - 1], output: o, to: p[k], input: i });
    }
}

/// A walk that is followed by a node which its end feeds is a walk.
pub(crate) proof fn lemma_walk_push(g: Graph, p: Seq<usize>, v: usize)
    requires
        g.is_walk(p),
        g.feeds(p.last(), v),
    ensures
        g.is_walk(p.push(v)),
        p.push(v)[0] == p[0],
        p.push(v).last() == v,
{
    let q = p.push(v);
    assert forall|k: int| 0 <= k < q.len() - 1 implies g.feeds(#[trigger] q[k], q[k + 1]) by {
        if k < p.len() - 1 {
            assert(g.feeds(p[k], p[k + 1]));
        }
    }
}

/// What a node reaches, it reaches through what it feeds.
pub(crate) proof fn lemma_reaches_step(g: Graph, a: usize, u: usize, v: usize)
    requires
        g.reaches(a, u),
        g.feeds(u, v),
    ensures
        g.reaches(a, v),
{
    let p = choose|p: Seq<usize>| #[trigger] g.is_walk(p) && p[0] == a && p.last() == u;
    lemma_walk_push(g, p, v);
    assert(g.is_walk(p.push(v)));
}

} // verus!
