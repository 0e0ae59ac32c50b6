use vstd::prelude::*;
use std::collections::HashMap;
use egui_snarl::Snarl;
use crate::nodes::Nodes;
use crate::pins::{InputPinId, OutputPinId};
use crate::solver::graph::{lemma_walk_nodes, Graph, Wire};
use crate::solver::ranking::{
    closed_at, grown, lemma_back_to_start, lemma_potential_bound, lemma_potential_grown,
    lemma_potential_rises, lemma_raise, lemma_rank_overflow, lemma_self_loop, lemma_settled,
    potential, ranks_from, supported, tracking, witnessed,
};
use crate::solver::store::{node_ids, node_ref, topology};
use crate::solver::{downstream_of, NodeId, SolveError};
use crate::values::copy_values;

verus! {

broadcast use vstd::std_specs::hash::group_hash_axioms;

/// That the node `n` is listed at rank `r`.
pub open spec fn placed(levels: Map<usize, Vec<NodeId>>, r: usize, n: usize) -> bool {
    levels.contains_key(r) && levels[r]@.contains(NodeId(n))
}

/// The nodes that `levels` lists at rank `r`, in their order; none where
/// the rank was never used.
pub open spec fn nodes_at(levels: Map<usize, Vec<NodeId>>, r: usize) -> Seq<NodeId> {
    if levels.contains_key(r) {
        levels[r]@
    } else {
        Seq::empty()
    }
}

/// That `t` is `s` without one occurrence of `x`.
pub open spec fn removed_once(s: Seq<NodeId>, x: NodeId, t: Seq<NodeId>) -> bool {
    exists|i: int| 0 <= i < s.len() && s[i] == x && t == #[trigger] s.remove(i)
}

/// The lists of `lists` one after another.
pub open spec fn joined(lists: Seq<Seq<NodeId>>) -> Seq<NodeId>
    decreases lists.len(),
{
    if lists.len() == 0 {
        Seq::empty()
    } else {
        joined(lists.drop_last()) + lists.last()
    }
}

/// That no node has a rank.
pub open spec fn unranked(rank_of: Map<usize, usize>) -> bool {
    forall|n: usize| !rank_of.contains_key(n)
}

/// That `levels` lists every node of `rank_of` at its rank, once, and no
/// other node.
pub open spec fn lists(levels: Map<usize, Vec<NodeId>>, rank_of: Map<usize, usize>) -> bool {
    &&& forall|r: usize| #[trigger] levels.contains_key(r) ==> levels[r]@.no_duplicates()
    &&& forall|r: usize, n: usize| #[trigger]
        placed(levels, r, n) <==> rank_of.contains_key(n) && rank_of[n] == r
}

/// The rank table: for each node that was marked its rank, and for each
/// rank the nodes that have it.
pub struct Marker {
    ranks: HashMap<usize, Vec<NodeId>>,
    rank_by_node: HashMap<usize, usize>,
    highest: usize,
    first: Option<usize>,
}

/// A list without repeats stays so when one of it is taken out, and then
/// holds what it held but that one.
proof fn lemma_remove_keeps(s: Seq<NodeId>, i: int)
    requires
        s.no_duplicates(),
        0 <= i < s.len(),
    ensures
        s.remove(i).no_duplicates(),
        !s.remove(i).contains(s[i]),
        forall|x: NodeId| x != s[i] ==> (s.remove(i).contains(x) <==> s.contains(x)),
{
    let t = s.remove(i);
    assert forall|a: int, b: int| 0 <= a < t.len() && 0 <= b < t.len() && a != b implies t[a]
        != t[b] by {
        let a2 = if a < i {
            a
        } else {
            a + 1
        };
        let b2 = if b < i {
            b
        } else {
            b + 1
        };
        assert(t[a] == s[a2] && t[b] == s[b2]);
    }
    if t.contains(s[i]) {
        let a = choose|a: int| 0 <= a < t.len() && t[a] == s[i];
        let a2 = if a < i {
            a
        } else {
            a + 1
        };
        assert(t[a] == s[a2]);
    }
    assert forall|x: NodeId| x != s[i] implies (t.contains(x) <==> s.contains(x)) by {
        if t.contains(x) {
            let a = choose|a: int| 0 <= a < t.len() && t[a] == x;
            let a2 = if a < i {
                a
            } else {
                a + 1
            };
            assert(s[a2] == x);
        }
        if s.contains(x) {
            let a = choose|a: int| 0 <= a < s.len() && s[a] == x;
            let a2 = if a < i {
                a
            } else {
                a - 1
            };
            assert(t[a2] == x);
        }
    }
}

/// A list without repeats stays so when something new is added, and then
/// holds that and what it held.
proof fn lemma_push_keeps(s: Seq<NodeId>, x: NodeId)
    requires
        s.no_duplicates(),
        !s.contains(x),
    ensures
        s.push(x).no_duplicates(),
        forall|y: NodeId| s.push(x).contains(y) <==> (y == x || s.contains(y)),
{
    let t = s.push(x);
    assert forall|y: NodeId| t.contains(y) <==> (y == x || s.contains(y)) by {
        if t.contains(y) {
            let a = choose|a: int| 0 <= a < t.len() && t[a] == y;
            if a < s.len() {
                assert(s[a] == y);
            }
        }
        if y == x {
            assert(t[s.len() as int] == y);
        }
        if s.contains(y) {
            let a = choose|a: int| 0 <= a < s.len() && s[a] == y;
            assert(t[a] == y);
        }
    }
}

impl Marker {
    /// The rank of each node that was marked.
    pub closed spec fn rank_of(&self) -> Map<usize, usize> {
        self.rank_by_node@
    }

    /// For each rank that was used, the nodes that have it.
    pub closed spec fn levels(&self) -> Map<usize, Vec<NodeId>> {
        self.ranks@
    }

    /// The highest rank that a node was ever stored for; zero for an empty
    /// table.
    pub closed spec fn highest(&self) -> usize {
        self.highest
    }

    /// The lists of nodes by rank, from rank zero up to the highest rank
    /// that a node was ever stored for; no list where no node has a rank.
    pub open spec fn by_rank(&self) -> Seq<Seq<NodeId>> {
        if unranked(self.rank_of()) {
            Seq::empty()
        } else {
            Seq::new((self.highest() + 1) as nat, |r: int| nodes_at(self.levels(), r as usize))
        }
    }

    /// The node that was stored first, if any was.
    pub closed spec fn first(&self) -> Option<usize> {
        self.first
    }

    /// That the two directions of the table agree.
    pub open spec fn wf(&self) -> bool {
        &&& lists(self.levels(), self.rank_of())
        &&& forall|r: usize| #[trigger] self.levels().contains_key(r) ==> r <= self.highest()
        &&& match self.first() {
            Some(n) => self.rank_of().contains_key(n),
            None => unranked(self.rank_of()) && forall|r: usize| !self.levels().contains_key(r),
        }
    }

    /// An empty table: no node has a rank, and there is no list of nodes.
    pub fn new() -> (r: Marker)
        ensures
            r.wf(),
            r.rank_of() == Map::<usize, usize>::empty(),
            r.levels() == Map::<usize, Vec<NodeId>>::empty(),
            r.highest() == 0,
            unranked(r.rank_of()),
            r.by_rank() == Seq::<Seq<NodeId>>::empty(),
    {
        Self { ranks: HashMap::new(), rank_by_node: HashMap::new(), highest: 0, first: None }
    }

    /// The rank of the node `node_id`; none where it has none.
    pub fn get_rank(&self, node_id: NodeId) -> (r: Option<usize>)
        ensures
            match r {
                Some(rank) => self.rank_of().contains_key(node_id.0) && self.rank_of()[node_id.0]
                    == rank,
                None => !self.rank_of().contains_key(node_id.0),
            },
    {
        match self.rank_by_node.get(&node_id.0) {
            Some(rank) => Some(*rank),
            None => None,
        }
    }

    /// Stores the node `node_id` for `rank`, unless it is already stored for
    /// this rank or a higher one: a node has one rank, and its rank only
    /// rises. The node joins the end of the list of `rank`; where it was
    /// stored for a lower rank, it leaves the list of that rank.
    ///
    /// Says whether the table changed.
    pub fn store_node_rank(&mut self, node_id: NodeId, rank: usize) -> (changed: bool)
        requires
            old(self).wf(),
        ensures
            final(self).wf(),
            changed == !(old(self).rank_of().contains_key(node_id.0) && old(self).rank_of()[node_id.0]
                >= rank),
            changed ==> final(self).rank_of() == old(self).rank_of().insert(node_id.0, rank),
            !changed ==> final(self).rank_of() == old(self).rank_of() && final(self).levels()
                == old(self).levels(),
            forall|r: usize|
                old(self).levels().contains_key(r) ==> #[trigger] final(self).levels().contains_key(r),
            forall|r: usize| #[trigger]
                final(self).levels().contains_key(r) ==> old(self).levels().contains_key(r) || r
                    == rank,
            final(self).highest() == (if changed && rank > old(self).highest() {
                rank
            } else {
                old(self).highest()
            }),
            changed ==> nodes_at(final(self).levels(), rank) == nodes_at(old(self).levels(), rank).push(
                node_id,
            ),
            forall|r: usize|
                changed && r != rank && !placed(old(self).levels(), r, node_id.0) ==> #[trigger] nodes_at(
                    final(self).levels(),
                    r,
                ) == nodes_at(old(self).levels(), r),
            forall|r: usize|
                changed && #[trigger] placed(old(self).levels(), r, node_id.0) ==> removed_once(
                    nodes_at(old(self).levels(), r),
                    node_id,
                    nodes_at(final(self).levels(), r),
                ),
    {
        let ghost levels0 = self.ranks@;
        let ghost rank0 = self.rank_by_node@;
        let n = node_id.0;
        let ghost mut at: int = 0;
        let before = self.get_rank(node_id);
        match before {
            Some(old_rank) => {
                if old_rank >= rank {
                    return false;
                }
                assert(placed(levels0, old_rank, n));
                let mut level = self.ranks.remove(&old_rank).unwrap();
                let ghost listed = level@;
                let mut i: usize = 0;
                while i < level.len() && level[i] != node_id
                    invariant
                        i <= level@.len(),
                        level@ == listed,
                        forall|k: int| 0 <= k < i ==> listed[k] != node_id,
                    decreases level@.len() - i,
                {
                    i = i + 1;
                }
                proof {
                    if i == listed.len() {
                        let k = choose|k: int| 0 <= k < listed.len() && listed[k] == node_id;
                        assert(false);
                    }
                    lemma_remove_keeps(listed, i as int);
                    at = i as int;
                }
                level.remove(i);
                self.ranks.insert(old_rank, level);
            },
            None => {},
        }
        let ghost levels1 = self.ranks@;
        proof {
            assert forall|r: usize| #[trigger] levels1.contains_key(r) implies levels1[r]@.no_duplicates() by {
                if levels0.contains_key(r) {
                }
            }
            assert forall|r: usize, m: usize| #[trigger] placed(levels1, r, m) <==> m != n && placed(levels0, r, m) by {
                if m == n {
                    if placed(levels1, r, m) {
                        if before is Some && r == before->0 {
                        } else {
                            assert(placed(levels0, r, m));
                        }
                    }
                } else {
                    if placed(levels0, r, m) {
                        assert(NodeId(m) != node_id);
                    }
                    if placed(levels1, r, m) {
                        assert(NodeId(m) != node_id);
                    }
                }
            }
            assert forall|r: usize| levels0.contains_key(r) <==> #[trigger] levels1.contains_key(r) by {}
        }
        let mut level = match self.ranks.remove(&rank) {
            Some(level) => level,
            None => Vec::new(),
        };
        proof {
            if level@.contains(node_id) {
                assert(placed(levels1, rank, n));
            }
            if levels1.contains_key(rank) {
                assert(level@.no_duplicates());
            }
            lemma_push_keeps(level@, node_id);
        }
        let ghost shorter = level@;
        level.push(node_id);
        self.ranks.insert(rank, level);
        self.rank_by_node.insert(n, rank);
        if rank > self.highest {
            self.highest = rank;
        }
        if self.first.is_none() {
            self.first = Some(n);
        }
        proof {
            let levels2 = self.ranks@;
            let rank2 = self.rank_by_node@;
            assert forall|r: usize, m: usize| #[trigger]
                placed(levels2, r, m) <==> rank2.contains_key(m) && rank2[m] == r by {
                if r == rank {
                    assert(levels2[r]@.contains(NodeId(m)) <==> (NodeId(m) == node_id
                        || shorter.contains(NodeId(m))));
                    assert(shorter.contains(NodeId(m)) <==> placed(levels1, r, m));
                } else {
                    assert(placed(levels2, r, m) <==> placed(levels1, r, m));
                }
                assert(placed(levels1, r, m) <==> m != n && placed(levels0, r, m));
            }
            assert forall|r: usize| #[trigger] levels2.contains_key(r) implies levels2[r]@.no_duplicates() by {
                if r != rank {
                    assert(levels1.contains_key(r));
                }
            }
            assert forall|r: usize| #[trigger] placed(levels0, r, n) implies removed_once(
                nodes_at(levels0, r),
                node_id,
                nodes_at(levels2, r),
            ) by {
                assert(before == Some(r));
                assert(nodes_at(levels2, r) == nodes_at(levels0, r).remove(at));
            }
            assert forall|r: usize| r != rank && !placed(levels0, r, n) implies #[trigger] nodes_at(
                levels2,
                r,
            ) == nodes_at(levels0, r) by {
                if before is Some && r == before->0 {
                    assert(placed(levels0, r, n));
                }
            }
        }
        true
    }

    /// The nodes of each rank, the ranks in increasing order from zero up to
    /// the highest that a node was stored for; a rank in between that no node
    /// has gives an empty list. A table in which no node has a rank gives no
    /// list at all.
    pub fn iter(&self) -> (r: Vec<Vec<NodeId>>)
        requires
            self.wf(),
        ensures
            unranked(self.rank_of()) ==> r@.len() == 0,
            !unranked(self.rank_of()) ==> r@.len() == self.highest() + 1,
            r@.len() == self.by_rank().len(),
            forall|k: usize| #[trigger] self.levels().contains_key(k) ==> k < r@.len(),
            forall|k: int| 0 <= k < r@.len() ==> #[trigger] r@[k]@ == self.by_rank()[k],
            forall|k: int|
                0 <= k < r@.len() ==> #[trigger] r@[k]@ == nodes_at(self.levels(), k as usize),
    {
        let mut out: Vec<Vec<NodeId>> = Vec::new();
        if self.first.is_none() {
            return out;
        }
        proof {
            assert(self.rank_of().contains_key(self.first->0));
        }
        let mut k: usize = 0;
        loop
            invariant_except_break
                out@.len() == k,
                forall|j: int|
                    0 <= j < k ==> #[trigger] out@[j]@ == nodes_at(self.levels(), j as usize),
            invariant
                self.wf(),
                k <= self.highest(),
            ensures
                out@.len() == self.highest() + 1,
                forall|j: int|
                    0 <= j < out@.len() ==> #[trigger] out@[j]@ == nodes_at(
                        self.levels(),
                        j as usize,
                    ),
            decreases self.highest() - k,
        {
            let level = match self.ranks.get(&k) {
                Some(nodes) => copy_values(nodes),
                None => Vec::new(),
            };
            out.push(level);
            if k == self.highest {
                break ;
            }
            k = k + 1;
        }
        out
    }
}

/// The rank at which `levels` lists each node.
pub open spec fn rank_table(levels: Map<usize, Vec<NodeId>>) -> Map<usize, usize> {
    Map::new(
        |n: usize| exists|r: usize| placed(levels, r, n),
        |n: usize| choose|r: usize| placed(levels, r, n),
    )
}

/// A table that lists every node of `rank_of` at its rank is read back as
/// `rank_of`.
pub(crate) proof fn lemma_rank_table(levels: Map<usize, Vec<NodeId>>, rank_of: Map<usize, usize>)
    requires
        lists(levels, rank_of),
    ensures
        rank_table(levels) == rank_of,
{
    let t = rank_table(levels);
    assert forall|n: usize| t.contains_key(n) <==> rank_of.contains_key(n) by {
        if t.contains_key(n) {
            let r = choose|r: usize| placed(levels, r, n);
            assert(placed(levels, r, n));
        }
        if rank_of.contains_key(n) {
            assert(placed(levels, rank_of[n], n));
        }
    }
    assert forall|n: usize| t.contains_key(n) implies t[n] == rank_of[n] by {
        let r = choose|r: usize| placed(levels, r, n);
        assert(placed(levels, r, n));
    }
    assert(t =~= rank_of);
}

/// That `ids` lists the nodes of `g`, each once.
pub open spec fn covers(ids: Seq<NodeId>, g: Graph) -> bool {
    &&& ids.no_duplicates()
    &&& forall|n: usize| #[trigger] ids.contains(NodeId(n)) <==> g.has(n)
}

/// That every connection from the output pins below `o` of `u` leads to a
/// node ranked above `rank`.
spec fn closed_below(g: Graph, rank_of: Map<usize, usize>, u: usize, rank: usize, o: usize) -> bool {
    forall|x: usize, v: usize, i: usize|
        x < o && #[trigger] g.carries(Wire { from: u, output: x, to: v, input: i })
            ==> rank_of.contains_key(v) && rank < rank_of[v]
}

/// That every one of the first `j` of `remotes` is ranked above `rank`.
spec fn closed_among(
    rank_of: Map<usize, usize>,
    remotes: Seq<(NodeId, InputPinId)>,
    rank: usize,
    j: int,
) -> bool {
    forall|k: int|
        0 <= k < j ==> rank_of.contains_key((#[trigger] remotes[k]).0.0) && rank
            < rank_of[remotes[k].0.0]
}

impl Marker {
    /// Lifts every node that `node_id`, which has rank `rank`, feeds to at
    /// least the next rank. Says whether the table changed; fails where a
    /// walk from `start` turns out to come by some node twice.
    fn mark_node_inner(
        &mut self,
        store: &Snarl<Nodes>,
        node_id: NodeId,
        rank: usize,
        start: NodeId,
        ids: &Vec<NodeId>,
    ) -> (r: Result<bool, SolveError>)
        requires
            old(self).wf(),
            covers(ids@, topology(*store)),
            tracking(topology(*store), start.0, ids@.len() as usize, old(self).rank_of()),
            old(self).rank_of().contains_key(node_id.0),
            old(self).rank_of()[node_id.0] == rank,
        ensures
            match r {
                Ok(changed) => {
                    &&& final(self).wf()
                    &&& tracking(
                        topology(*store),
                        start.0,
                        ids@.len() as usize,
                        final(self).rank_of(),
                    )
                    &&& grown(old(self).rank_of(), final(self).rank_of())
                    &&& changed ==> potential(ids@, old(self).rank_of()) < potential(
                        ids@,
                        final(self).rank_of(),
                    )
                    &&& !changed ==> final(self).rank_of() == old(self).rank_of() && closed_at(
                        topology(*store),
                        final(self).rank_of(),
                        node_id.0,
                    )
                },
                Err(e) => e == SolveError::Cycle && topology(*store).has_cycle_from(start.0),
            },
    {
        let ghost g = topology(*store);
        let ghost c = start.0;
        let ghost u = node_id.0;
        let ghost before = self.rank_of();
        let bound = ids.len();
        let outs = match node_ref(store, node_id) {
            Some(node) => node.outputs(),
            None => 0,
        };
        assert(g.has(u) ==> outs == g.outs[u]);
        let mut changed = false;
        let mut o: usize = 0;
        while o < outs
            invariant
                o <= outs,
                g == topology(*store),
                c == start.0,
                u == node_id.0,
                bound == ids@.len(),
                g.has(u) ==> outs == g.outs[u],
                covers(ids@, g),
                self.wf(),
                tracking(g, c, bound, self.rank_of()),
                grown(before, self.rank_of()),
                self.rank_of().contains_key(u),
                self.rank_of()[u] == rank,
                changed ==> potential(ids@, before) < potential(ids@, self.rank_of()),
                !changed ==> self.rank_of() == before && closed_below(g, before, u, rank, o),
            decreases outs - o,
        {
            let remotes = downstream_of(store, node_id, OutputPinId(o));
            let mut j: usize = 0;
            while j < remotes.len()
                invariant
                    j <= remotes@.len(),
                    o < outs,
                    g == topology(*store),
                    c == start.0,
                    u == node_id.0,
                    bound == ids@.len(),
                    g.has(u) ==> outs == g.outs[u],
                    covers(ids@, g),
                    forall|n: usize, i: usize|
                        remotes@.contains((NodeId(n), InputPinId(i))) <==> g.carries(
                            Wire { from: u, output: o, to: n, input: i },
                        ),
                    self.wf(),
                    tracking(g, c, bound, self.rank_of()),
                    grown(before, self.rank_of()),
                    self.rank_of().contains_key(u),
                    self.rank_of()[u] == rank,
                    changed ==> potential(ids@, before) < potential(ids@, self.rank_of()),
                    !changed ==> self.rank_of() == before && closed_below(g, before, u, rank, o)
                        && closed_among(before, remotes@, rank, j as int),
                decreases remotes@.len() - j,
            {
                let (d, input) = remotes[j];
                let ghost now = self.rank_of();
                proof {
                    assert(remotes@.contains((NodeId(d.0), InputPinId(input.0))));
                    assert(g.carries(Wire { from: u, output: o, to: d.0, input: input.0 }));
                    assert(g.feeds(u, d.0));
                }
                if d == start {
                    proof {
                        lemma_back_to_start(g, c, now, u);
                    }
                    return Err(SolveError::Cycle);
                }
                if d == node_id {
                    proof {
                        lemma_self_loop(g, c, now, u);
                    }
                    return Err(SolveError::Cycle);
                }
                let lift = match self.get_rank(d) {
                    Some(held) => held <= rank,
                    None => true,
                };
                if lift {
                    if rank + 1 >= bound {
                        proof {
                            lemma_rank_overflow(g, c, now, ids@, u, d.0);
                        }
                        return Err(SolveError::Cycle);
                    }
                    proof {
                        lemma_raise(g, c, bound, now, u, d.0);
                        lemma_potential_rises(ids@, now, now.insert(d.0, (rank + 1) as usize), d.0);
                        lemma_potential_grown(ids@, before, now);
                    }
                    self.store_node_rank(d, rank + 1);
                    changed = true;
                }
                j = j + 1;
            }
            proof {
                if !changed {
                    assert forall|x: usize, v: usize, i: usize|
                        x < o + 1 && #[trigger] g.carries(
                            Wire { from: u, output: x, to: v, input: i },
                        ) implies before.contains_key(v) && rank < before[v] by {
                        if x == o {
                            assert(remotes@.contains((NodeId(v), InputPinId(i))));
                            let k = choose|k: int|
                                0 <= k < remotes@.len() && remotes@[k] == (
                                    NodeId(v),
                                    InputPinId(i),
                                );
                            assert(before.contains_key(remotes@[k].0.0));
                        }
                    }
                }
            }
            o = o + 1;
        }
        proof {
            if !changed {
                assert forall|v: usize| #[trigger] g.feeds(u, v) implies before.contains_key(v)
                    && before[u] < before[v] by {
                    let (x, i) = choose|x: usize, i: usize| #[trigger]
                        g.carries(Wire { from: u, output: x, to: v, input: i });
                    assert(g.carries(Wire { from: u, output: x, to: v, input: i }));
                }
            }
        }
        Ok(changed)
    }

    /// The ranks of the nodes that `node_id` reaches, as the lists of nodes
    /// by rank. Whatever `self` held is dropped.
    pub fn mark_nodes_from(self, store: &Snarl<Nodes>, node_id: NodeId) -> (r: Result<
        HashMap<usize, Vec<NodeId>>,
        SolveError,
    >)
        ensures
            match r {
                Ok(levels) => {
                    &&& topology(*store).has(node_id.0)
                    &&& !topology(*store).has_cycle_from(node_id.0)
                    &&& lists(levels@, rank_table(levels@))
                    &&& ranks_from(topology(*store), node_id.0, rank_table(levels@))
                },
                Err(SolveError::Cycle) => topology(*store).has(node_id.0) && topology(
                    *store,
                ).has_cycle_from(node_id.0),
                Err(SolveError::UnknownNode) => !topology(*store).has(node_id.0),
            },
    {
        match Marker::mark(store, node_id) {
            Ok(marker) => {
                proof {
                    lemma_rank_table(marker.levels(), marker.rank_of());
                }
                Ok(marker.ranks)
            },
            Err(e) => Err(e),
        }
    }

    /// The nodes that have a rank, each once, by increasing rank; those of
    /// one rank in the order of their list.
    pub fn order(&self) -> (r: Vec<NodeId>)
        requires
            self.wf(),
        ensures
            r@ == joined(self.by_rank()),
            r@.no_duplicates(),
            forall|n: usize| #[trigger] r@.contains(NodeId(n)) <==> self.rank_of().contains_key(n),
            forall|i: int, j: int|
                0 <= i <= j < r@.len() ==> self.rank_of()[(#[trigger] r@[i]).0] <= self.rank_of()[(
                #[trigger] r@[j]).0],
    {
        let levels = self.iter();
        let ghost rank_of = self.rank_of();
        let ghost table = self.levels();
        let ghost lists = self.by_rank();
        let mut out: Vec<NodeId> = Vec::new();
        let mut r: usize = 0;
        proof {
            assert(lists.take(0) =~= Seq::<Seq<NodeId>>::empty());
        }
        while r < levels.len()
            invariant
                r <= levels@.len(),
                lists == self.by_rank(),
                lists.len() == levels@.len(),
                out@ == joined(lists.take(r as int)),
                self.wf(),
                rank_of == self.rank_of(),
                table == self.levels(),
                forall|k: usize| #[trigger] table.contains_key(k) ==> k < levels@.len(),
                forall|k: int|
                    0 <= k < levels@.len() ==> #[trigger] levels@[k]@ == (if table.contains_key(
                        k as usize,
                    ) {
                        table[k as usize]@
                    } else {
                        Seq::empty()
                    }),
                out@.no_duplicates(),
                forall|i: int|
                    0 <= i < out@.len() ==> rank_of.contains_key((#[trigger] out@[i]).0)
                        && rank_of[out@[i].0] < r,
                forall|i: int, j: int|
                    0 <= i <= j < out@.len() ==> rank_of[(#[trigger] out@[i]).0] <= rank_of[(
                    #[trigger] out@[j]).0],
                forall|n: usize|
                    rank_of.contains_key(n) && rank_of[n] < r ==> #[trigger] out@.contains(
                        NodeId(n),
                    ),
            decreases levels@.len() - r,
        {
            let level = &levels[r];
            let ghost start = out@.len();
            let mut k: usize = 0;
            proof {
                assert(level@.take(0) =~= Seq::<NodeId>::empty());
                assert(out@ + level@.take(0) =~= out@);
            }
            while k < level.len()
                invariant
                    k <= level@.len(),
                    r < levels@.len(),
                    lists == self.by_rank(),
                    lists.len() == levels@.len(),
                    out@ == joined(lists.take(r as int)) + level@.take(k as int),
                    self.wf(),
                    rank_of == self.rank_of(),
                    table == self.levels(),
                    level@ == levels@[r as int]@,
                    level@ == (if table.contains_key(r) {
                        table[r]@
                    } else {
                        Seq::empty()
                    }),
                    out@.no_duplicates(),
                    out@.len() == start + k,
                    forall|i: int|
                        0 <= i < start ==> rank_of.contains_key((#[trigger] out@[i]).0)
                            && rank_of[out@[i].0] < r,
                    forall|i: int| start <= i < out@.len() ==> #[trigger] out@[i] == level@[i - start],
                    forall|i: int|
                        0 <= i < out@.len() ==> rank_of.contains_key((#[trigger] out@[i]).0)
                            && rank_of[out@[i].0] <= r,
                    forall|i: int, j: int|
                        0 <= i <= j < out@.len() ==> rank_of[(#[trigger] out@[i]).0] <= rank_of[(
                        #[trigger] out@[j]).0],
                    forall|n: usize|
                        rank_of.contains_key(n) && rank_of[n] < r ==> #[trigger] out@.contains(
                            NodeId(n),
                        ),
                decreases level@.len() - k,
            {
                let x = level[k];
                proof {
                    assert(table.contains_key(r));
                    assert(table[r]@.no_duplicates());
                    assert(level@.contains(x));
                    assert(NodeId(x.0) == x);
                    assert(placed(table, r, x.0));
                    assert(rank_of.contains_key(x.0) && rank_of[x.0] == r);
                    let ghost before = out@;
                    assert forall|i: int| 0 <= i < before.len() implies before[i] != x by {
                        if i >= start {
                            assert(before[i] == level@[i - start]);
                        }
                    }
                    assert forall|n: usize|
                        rank_of.contains_key(n) && rank_of[n] < r implies #[trigger] before.push(
                        x,
                    ).contains(NodeId(n)) by {
                        assert(before.contains(NodeId(n)));
                        let i = choose|i: int| 0 <= i < before.len() && before[i] == NodeId(n);
                        assert(before.push(x)[i] == NodeId(n));
                    }
                    assert(level@.take(k + 1) =~= level@.take(k as int).push(x));
                    assert((joined(lists.take(r as int)) + level@.take(k as int)).push(x) =~= joined(
                        lists.take(r as int),
                    ) + level@.take(k + 1));
                }
                out.push(x);
                k = k + 1;
            }
            proof {
                assert(level@.take(level@.len() as int) =~= level@);
                assert(lists.take(r + 1).drop_last() =~= lists.take(r as int));
                assert(lists.take(r + 1).last() == level@);
                assert forall|n: usize|
                    rank_of.contains_key(n) && rank_of[n] < r + 1 implies #[trigger] out@.contains(
                    NodeId(n),
                ) by {
                    if rank_of[n] == r {
                        assert(placed(table, r, n));
                        let m = choose|m: int| 0 <= m < level@.len() && level@[m] == NodeId(n);
                        assert(out@[start + m] == level@[m]);
                    }
                }
            }
            r = r + 1;
        }
        proof {
            assert(lists.take(levels@.len() as int) =~= lists);
            assert forall|n: usize| #[trigger] out@.contains(NodeId(n)) <==> rank_of.contains_key(
                n,
            ) by {
                if out@.contains(NodeId(n)) {
                    let i = choose|i: int| 0 <= i < out@.len() && out@[i] == NodeId(n);
                    assert(rank_of.contains_key(out@[i].0));
                }
                if rank_of.contains_key(n) {
                    assert(placed(table, rank_of[n], n));
                    assert(table.contains_key(rank_of[n]));
                }
            }
        }
        out
    }

    /// Ranks the nodes that `node_id` reaches in `store`: the node itself
    /// gets rank zero, every other one more than the highest rank among the
    /// ranked nodes that feed it. Fails where the graph holds no such node,
    /// and where a walk from it comes by some node twice.
    pub fn mark(store: &Snarl<Nodes>, node_id: NodeId) -> (r: Result<Marker, SolveError>)
        ensures
            match r {
                Ok(marker) => {
                    &&& marker.wf()
                    &&& topology(*store).has(node_id.0)
                    &&& !topology(*store).has_cycle_from(node_id.0)
                    &&& ranks_from(topology(*store), node_id.0, marker.rank_of())
                },
                Err(SolveError::Cycle) => topology(*store).has(node_id.0) && topology(
                    *store,
                ).has_cycle_from(node_id.0),
                Err(SolveError::UnknownNode) => !topology(*store).has(node_id.0),
            },
    {
        let ghost g = topology(*store);
        let ghost c = node_id.0;
        if node_ref(store, node_id).is_none() {
            return Err(SolveError::UnknownNode);
        }
        let ids = node_ids(store);
        let bound = ids.len();
        let mut marker = Marker::new();
        marker.store_node_rank(node_id, 0);
        proof {
            assert(ids@.contains(NodeId(c)));
            reveal(witnessed);
            reveal(supported);
            let p = seq![c];
            assert(g.is_walk(p) && p[0] == c && p.last() == c && p.len() == 1);
            assert(marker.rank_of() =~= Map::<usize, usize>::empty().insert(c, 0));
            assert(witnessed(g, c, marker.rank_of(), c));
        }
        loop
            invariant
                g == topology(*store),
                c == node_id.0,
                bound == ids@.len(),
                covers(ids@, g),
                marker.wf(),
                tracking(g, c, bound, marker.rank_of()),
            ensures
                marker.wf(),
                tracking(g, c, bound, marker.rank_of()),
                forall|t: int| 0 <= t < ids@.len() ==> closed_at(g, marker.rank_of(), (#[trigger] ids@[t]).0),
            decreases ids@.len() * bound - potential(ids@, marker.rank_of()),
        {
            let ghost at_start = marker.rank_of();
            let mut changed = false;
            let mut t: usize = 0;
            while t < ids.len()
                invariant
                    t <= ids@.len(),
                    g == topology(*store),
                    c == node_id.0,
                    bound == ids@.len(),
                    covers(ids@, g),
                    marker.wf(),
                    tracking(g, c, bound, marker.rank_of()),
                    grown(at_start, marker.rank_of()),
                    changed ==> potential(ids@, at_start) < potential(ids@, marker.rank_of()),
                    !changed ==> marker.rank_of() == at_start && forall|k: int|
                        0 <= k < t ==> closed_at(g, at_start, (#[trigger] ids@[k]).0),
                decreases ids@.len() - t,
            {
                let id = ids[t];
                let ghost now = marker.rank_of();
                match marker.get_rank(id) {
                    Some(rank) => {
                        match marker.mark_node_inner(store, id, rank, node_id, &ids) {
                            Ok(moved) => {
                                proof {
                                    lemma_potential_grown(ids@, at_start, now);
                                }
                                if moved {
                                    changed = true;
                                }
                            },
                            Err(e) => {
                                return Err(SolveError::Cycle);
                            },
                        }
                    },
                    None => {},
                }
                t = t + 1;
            }
            proof {
                lemma_potential_bound(ids@, marker.rank_of(), bound);
            }
            if !changed {
                break ;
            }
        }
        proof {
            let rank_of = marker.rank_of();
            assert forall|u: usize| #[trigger] closed_at(g, rank_of, u) by {
                if rank_of.contains_key(u) {
                    reveal(witnessed);
                    assert(witnessed(g, c, rank_of, u));
                    let p = choose|p: Seq<usize>| #[trigger]
                        g.is_walk(p) && p[0] == c && p.last() == u && p.len() == rank_of[u] + 1;
                    lemma_walk_nodes(g, p, p.len() - 1);
                    assert(ids@.contains(NodeId(u)));
                    let t = choose|t: int| 0 <= t < ids@.len() && ids@[t] == NodeId(u);
                    assert(closed_at(g, rank_of, ids@[t].0));
                }
            }
            lemma_settled(g, c, bound, rank_of);
        }
        Ok(marker)
    }
}

} // verus!
