use vstd::prelude::*;
use crate::audio::node_graph::{
    ConnectivityGraph, graph_nodes, graph_edges, graph_weights, new_graph, add_graph_node, add_graph_edge,
    remove_graph_node, edges_without, avoids, node_weight, node_count, edge_count, contains_node, node_bound, select_finished_nodes, is_finished, ids_sorted, NodeStatus,
};
use crate::audio::execution_graph::{ExecutionPlan, schedule_closes};
use crate::utility::resource_scope::ResourceScopeID;

verus! {

/// The edges that join nodes of which neither is in `s`.
pub open spec fn edges_avoiding(edges: Seq<(int, int)>, s: Set<int>) -> Seq<(int, int)> {
    edges.filter(|e: (int, int)| !s.contains(e.0) && !s.contains(e.1))
}

/// Each edge kept when `a` goes was an edge before and does not touch `a`.
proof fn lemma_edges_without_kept(edges: Seq<(int, int)>, a: int)
    ensures
        forall|i: int| 0 <= i < edges_without(edges, a).len() ==> {
            let e = #[trigger] edges_without(edges, a)[i];
            &&& edges.contains(e)
            &&& e.0 != a
            &&& e.1 != a
        },
    decreases edges.len(),
{
    if edges.len() > 0 {
        let t = edges.drop_last();
        let x = edges.last();
        lemma_edges_without_kept(t, a);
        assert(t.push(x) =~= edges);
        t.lemma_filter_push(x, avoids(a));
        assert(edges_without(edges, a) == if x.0 != a && x.1 != a {
            edges_without(t, a).push(x)
        } else {
            edges_without(t, a)
        });
        assert forall|i: int| 0 <= i < edges_without(edges, a).len() implies
            edges.contains(#[trigger] edges_without(edges, a)[i]) by {
            if i < edges_without(t, a).len() {
                let e = edges_without(t, a)[i];
                let k = choose|k: int| 0 <= k < t.len() && t[k] == e;
                assert(edges[k] == e);
            } else {
                assert(edges[edges.len() - 1] == x);
            }
        }
    } else {
        reveal(Seq::filter);
    }
}

/// Filtering twice is filtering once by both predicates.
proof fn lemma_filter_filter(s: Seq<(int, int)>, p: spec_fn((int, int)) -> bool, q: spec_fn((int, int)) -> bool)
    ensures
        s.filter(p).filter(q) == s.filter(|e: (int, int)| p(e) && q(e)),
    decreases s.len(),
{
    let pq = |e: (int, int)| p(e) && q(e);
    if s.len() == 0 {
        reveal(Seq::filter);
        assert(s.filter(p) =~= s);
        assert(s.filter(pq) =~= s);
        assert(s.filter(p).filter(q) =~= s);
    } else {
        let t = s.drop_last();
        let x = s.last();
        lemma_filter_filter(t, p, q);
        assert(t.push(x) =~= s);
        t.lemma_filter_push(x, p);
        t.lemma_filter_push(x, pq);
        t.filter(p).lemma_filter_push(x, q);
    }
}

/// Dropping the edges of one more node is dropping the edges of the larger set.
pub proof fn lemma_edges_avoiding_insert(edges: Seq<(int, int)>, s: Set<int>, a: int)
    ensures
        edges_without(edges_avoiding(edges, s), a) == edges_avoiding(edges, s.insert(a)),
{
    let p = |e: (int, int)| !s.contains(e.0) && !s.contains(e.1);
    let q = avoids(a);
    let pq = |e: (int, int)| !s.insert(a).contains(e.0) && !s.insert(a).contains(e.1);
    lemma_filter_filter(edges, p, q);
    assert(edges_avoiding(edges, s) == edges.filter(p));
    assert(edges_without(edges.filter(p), a) == edges.filter(p).filter(q));
    assert(edges_avoiding(edges, s.insert(a)) == edges.filter(pq));
    assert((|e: (int, int)| p(e) && q(e)) =~= pq);
}

/// The topology of an audio node graph: its nodes (by index, each with the bits of the key
/// under which it is stored), where each sends its output, which one is the output, and
/// whether the plan that runs the graph must be rebuilt.
pub struct Connectivity {
    graph: ConnectivityGraph,
    output: usize,
    topology_dirty: bool,
}

impl Connectivity {
    pub closed spec fn nodes(self) -> Set<int> {
        graph_nodes(self.graph)
    }

    pub closed spec fn edges(self) -> Seq<(int, int)> {
        graph_edges(self.graph)
    }

    pub closed spec fn keys(self) -> Map<int, u64> {
        graph_weights(self.graph)
    }

    pub closed spec fn output(self) -> usize {
        self.output
    }

    pub closed spec fn dirty(self) -> bool {
        self.topology_dirty
    }

    /// The output is a node, every node has a key and an index below `u32::MAX`, and every
    /// edge joins two nodes.
    pub open spec fn wf(self) -> bool {
        &&& self.nodes().contains(self.output() as int)
        &&& self.nodes().finite()
        &&& self.keys().dom() == self.nodes()
        &&& forall|n: int| #[trigger] self.nodes().contains(n) ==> 0 <= n < u32::MAX
        &&& forall|i: int| 0 <= i < self.edges().len() ==>
            self.nodes().contains(#[trigger] self.edges()[i].0) && self.nodes().contains(self.edges()[i].1)
    }

    /// A graph with only the output node, stored under `output_key`.
    pub fn new(output_key: u64) -> (c: Connectivity)
        ensures
            c.wf(),
            c.nodes() == set![c.output() as int],
            c.edges().len() == 0,
            c.keys() == map![c.output() as int => output_key],
            c.dirty(),
    {
        let mut graph = new_graph();
        let output = add_graph_node(&mut graph, output_key);
        let c = Connectivity { graph, output, topology_dirty: true };
        assert(c.nodes() =~= set![output as int]);
        assert(c.keys() =~= map![output as int => output_key]);
        c
    }

    pub fn graph(&self) -> (r: &ConnectivityGraph)
        ensures
            graph_nodes(*r) == self.nodes(),
            graph_edges(*r) == self.edges(),
            graph_weights(*r) == self.keys(),
    {
        &self.graph
    }

    pub fn output_index(&self) -> (r: usize)
        ensures
            r == self.output(),
    {
        self.output
    }

    pub fn is_dirty(&self) -> (r: bool)
        ensures
            r == self.dirty(),
    {
        self.topology_dirty
    }

    /// One past the largest node index.
    pub fn node_bound(&self) -> (b: usize)
        requires
            self.wf(),
        ensures
            forall|n: int| #[trigger] self.nodes().contains(n) ==> n < b,
            b <= u32::MAX,
    {
        node_bound(&self.graph)
    }

    /// The key under which the node at `index` is stored, if it is a node.
    pub fn key_at(&self, index: usize) -> (r: Option<u64>)
        requires
            self.wf(),
        ensures
            self.nodes().contains(index as int) ==> r == Some(self.keys()[index as int]),
            !self.nodes().contains(index as int) ==> r is None,
    {
        if index >= u32::MAX as usize {
            return None;
        }
        node_weight(&self.graph, index)
    }

    /// Whether `index` is a node.
    pub fn contains(&self, index: usize) -> (r: bool)
        requires
            self.wf(),
        ensures
            r == self.nodes().contains(index as int),
    {
        if index >= u32::MAX as usize {
            return false;
        }
        contains_node(&self.graph, index)
    }

    /// Whether one more node and one more connection fit the graph's index space.
    pub fn has_room(&self) -> (r: bool)
        ensures
            r == (self.nodes().len() + 2 < u32::MAX && self.edges().len() + 2 < u32::MAX),
    {
        let n = node_count(&self.graph);
        let e = edge_count(&self.graph);
        n < u32::MAX as usize - 2 && e < u32::MAX as usize - 2
    }

    /// Adds a node stored under `key`, sending to `send` if given; the plan needs rebuilding
    /// only when a connection was made.
    pub fn add_node(&mut self, key: u64, send: Option<usize>) -> (idx: usize)
        requires
            old(self).wf(),
            old(self).nodes().len() + 2 < u32::MAX,
            old(self).edges().len() + 2 < u32::MAX,
            send matches Some(s) ==> old(self).nodes().contains(s as int),
        ensures
            final(self).wf(),
            !old(self).nodes().contains(idx as int),
            final(self).nodes() == old(self).nodes().insert(idx as int),
            final(self).keys() == old(self).keys().insert(idx as int, key),
            final(self).output() == old(self).output(),
            final(self).edges() == (match send {
                Some(s) => old(self).edges().push((idx as int, s as int)),
                None => old(self).edges(),
            }),
            final(self).dirty() == (old(self).dirty() || send is Some),
    {
        let idx = add_graph_node(&mut self.graph, key);
        match send {
            Some(s) => {
                add_graph_edge(&mut self.graph, idx, s);
                self.topology_dirty = true;
            },
            None => {},
        }
        idx
    }

    /// Sends `node`'s output to `target` as well.
    pub fn add_send(&mut self, node: usize, target: usize)
        requires
            old(self).wf(),
            old(self).nodes().contains(node as int),
            old(self).nodes().contains(target as int),
            old(self).edges().len() + 2 < u32::MAX,
        ensures
            final(self).wf(),
            final(self).nodes() == old(self).nodes(),
            final(self).keys() == old(self).keys(),
            final(self).output() == old(self).output(),
            final(self).edges() == old(self).edges().push((node as int, target as int)),
            final(self).dirty(),
    {
        add_graph_edge(&mut self.graph, node, target);
        self.topology_dirty = true;
    }

    /// Removes a node other than the output, with its connections, and gives the key it
    /// was stored under; nothing happens for an index that is not a node.
    pub fn remove_node(&mut self, node: usize) -> (r: Option<u64>)
        requires
            old(self).wf(),
            node != old(self).output(),
            node < u32::MAX,
        ensures
            final(self).wf(),
            final(self).output() == old(self).output(),
            old(self).nodes().contains(node as int) ==> {
                &&& r == Some(old(self).keys()[node as int])
                &&& final(self).nodes() == old(self).nodes().remove(node as int)
                &&& final(self).edges() == edges_without(old(self).edges(), node as int)
                &&& final(self).keys() == old(self).keys().remove(node as int)
                &&& final(self).dirty()
            },
            !old(self).nodes().contains(node as int) ==> r is None && *final(self) == *old(self),
    {
        let r = remove_graph_node(&mut self.graph, node);
        match r {
            Some(_) => {
                self.topology_dirty = true;
                proof {
                    let e0 = old(self).edges();
                    lemma_edges_without_kept(e0, node as int);
                    assert forall|i: int| 0 <= i < self.edges().len() implies
                        self.nodes().contains(#[trigger] self.edges()[i].0) && self.nodes().contains(self.edges()[i].1) by {
                        let e = self.edges()[i];
                        let k = choose|k: int| 0 <= k < e0.len() && e0[k] == e;
                        assert(old(self).nodes().contains(e0[k].0));
                    }
                    assert(self.keys().dom() =~= self.nodes());
                }
            },
            None => {},
        }
        r
    }

    /// Removes the nodes that `select_finished_nodes` picks and gives, in increasing order
    /// of index, each removed node with the key it was stored under.
    pub fn cleanup_finished_nodes(&mut self, status: &Vec<NodeStatus>, expired: &Vec<ResourceScopeID>) -> (removed: Vec<(usize, u64)>)
        requires
            old(self).wf(),
            forall|n: int| #[trigger] old(self).nodes().contains(n) ==> n < status@.len(),
            ids_sorted(expired@),
        ensures
            final(self).wf(),
            final(self).output() == old(self).output(),
            forall|n: int| #[trigger] final(self).nodes().contains(n) <==> (old(self).nodes().contains(n)
                && !is_finished(old(self).nodes(), old(self).edges(), old(self).output() as int, status@, expired@, n)),
            final(self).keys() == old(self).keys().restrict(final(self).nodes()),
            final(self).edges() == edges_avoiding(old(self).edges(), Set::new(|n: int|
                is_finished(old(self).nodes(), old(self).edges(), old(self).output() as int, status@, expired@, n))),
            forall|i: int, j: int| 0 <= i < j < removed@.len() ==> removed@[i].0 < removed@[j].0,
            forall|i: int| 0 <= i < removed@.len() ==> is_finished(old(self).nodes(), old(self).edges(),
                old(self).output() as int, status@, expired@, (#[trigger] removed@[i]).0 as int)
                && removed@[i].1 == old(self).keys()[removed@[i].0 as int],
            forall|n: int| is_finished(old(self).nodes(), old(self).edges(), old(self).output() as int, status@, expired@, n)
                ==> exists|i: int| 0 <= i < removed@.len() && #[trigger] removed@[i].0 == n,
            final(self).dirty() == (old(self).dirty() || removed@.len() > 0),
    {
        let ghost nodes0 = self.nodes();
        let ghost edges0 = self.edges();
        let ghost keys0 = self.keys();
        let ghost out = self.output as int;
        let ghost fin = Set::new(|n: int| is_finished(nodes0, edges0, out, status@, expired@, n));
        let selected = select_finished_nodes(&self.graph, self.output, status, expired);
        let mut removed: Vec<(usize, u64)> = Vec::new();
        let mut k: usize = 0;
        let ghost mut gone: Set<int> = Set::empty();
        proof {
            let p = |e: (int, int)| !gone.contains(e.0) && !gone.contains(e.1);
            lemma_filter_all(edges0, p);
            assert(keys0.restrict(nodes0) =~= keys0);
        }
        while k < selected.len()
            invariant
                k <= selected@.len(),
                self.output as int == out,
                self.wf(),
                forall|i: int, j: int| 0 <= i < j < selected@.len() ==> selected@[i] < selected@[j],
                forall|n: usize| #[trigger] selected@.contains(n) <==> fin.contains(n as int),
                fin == Set::new(|n: int| is_finished(nodes0, edges0, out, status@, expired@, n)),
                forall|n: int| #[trigger] gone.contains(n) ==> fin.contains(n),
                forall|i: int| 0 <= i < k ==> gone.contains(#[trigger] selected@[i] as int),
                forall|i: int| k <= i < selected@.len() ==> !gone.contains(#[trigger] selected@[i] as int),
                forall|n: int| #[trigger] self.nodes().contains(n) <==> (nodes0.contains(n) && !gone.contains(n)),
                keys0.dom() == nodes0,
                self.keys() == keys0.restrict(self.nodes()),
                self.edges() == edges_avoiding(edges0, gone),
                removed@.len() == k,
                forall|i: int| 0 <= i < k ==> #[trigger] removed@[i] == (selected@[i], keys0[selected@[i] as int]),
                self.topology_dirty == (old(self).topology_dirty || k > 0),
                forall|n: int| #[trigger] nodes0.contains(n) ==> 0 <= n < u32::MAX,
            decreases selected@.len() - k,
        {
            let idx = selected[k];
            assert(selected@.contains(idx));
            assert(fin.contains(idx as int));
            assert(!gone.contains(idx as int));
            assert(self.nodes().contains(idx as int));
            let r = self.remove_node(idx);
            let key = match r {
                Some(key) => key,
                None => {
                    assert(false);
                    0
                },
            };
            removed.push((idx, key));
            proof {
                lemma_edges_avoiding_insert(edges0, gone, idx as int);
                gone = gone.insert(idx as int);
                assert forall|i: int| k + 1 <= i < selected@.len() implies !gone.contains(#[trigger] selected@[i] as int) by {
                    assert(selected@[k as int] < selected@[i]);
                }
                assert(self.keys() =~= keys0.restrict(self.nodes()));
            }
            k = k + 1;
        }
        proof {
            assert forall|n: int| #[trigger] fin.contains(n) implies gone.contains(n) by {
                assert(nodes0.contains(n));
                assert(selected@.contains(n as usize));
                let i = choose|i: int| 0 <= i < selected@.len() && selected@[i] == n as usize;
                assert(gone.contains(selected@[i] as int));
            }
            assert(gone =~= fin);
            assert forall|n: int| is_finished(nodes0, edges0, out, status@, expired@, n)
                implies exists|i: int| 0 <= i < removed@.len() && #[trigger] removed@[i].0 == n by {
                assert(fin.contains(n));
                assert(nodes0.contains(n));
                assert(selected@.contains(n as usize));
                let i = choose|i: int| 0 <= i < selected@.len() && selected@[i] == n as usize;
                assert(removed@[i].0 == n);
            }
            assert forall|i: int| 0 <= i < removed@.len() implies is_finished(nodes0, edges0,
                out, status@, expired@, (#[trigger] removed@[i]).0 as int) by {
                assert(gone.contains(selected@[i] as int));
                assert(fin.contains(selected@[i] as int));
            }
        }
        removed
    }

    /// Rebuilds the plan if the topology changed since the last one: `None` if nothing
    /// changed, `Some(None)` (the plan still to be rebuilt) where the output cannot be run.
    pub fn update_topology(&mut self, stereo: &Vec<bool>) -> (r: Option<Option<ExecutionPlan>>)
        requires
            old(self).wf(),
            forall|n: int| #[trigger] old(self).nodes().contains(n) ==> n < stereo@.len(),
        ensures
            final(self).wf(),
            final(self).nodes() == old(self).nodes(),
            final(self).edges() == old(self).edges(),
            final(self).keys() == old(self).keys(),
            final(self).output() == old(self).output(),
            !old(self).dirty() ==> r is None && !final(self).dirty(),
            old(self).dirty() ==> r is Some
                && (r->0 is Some <==> schedule_closes(old(self).nodes(), old(self).edges(), old(self).output() as int))
                && final(self).dirty() == !schedule_closes(old(self).nodes(), old(self).edges(), old(self).output() as int),
            r matches Some(Some(plan)) ==> plan.describes(old(self).nodes(), old(self).edges(), old(self).output() as int, stereo@),
    {
        if !self.topology_dirty {
            return None;
        }
        let plan = ExecutionPlan::try_from_graph(&self.graph, self.output, stereo);
        if plan.is_some() {
            self.topology_dirty = false;
        }
        Some(plan)
    }
}

/// Filtering by a predicate that holds of every element keeps the sequence.
proof fn lemma_filter_all(s: Seq<(int, int)>, p: spec_fn((int, int)) -> bool)
    requires
        forall|i: int| 0 <= i < s.len() ==> p(#[trigger] s[i]),
    ensures
        s.filter(p) == s,
    decreases s.len(),
{
    reveal(Seq::filter);
    if s.len() > 0 {
        lemma_filter_all(s.drop_last(), p);
        assert(p(s[s.len() - 1]));
        assert(s.drop_last().push(s.last()) =~= s);
    } else {
        assert(s.filter(p) =~= s);
    }
}

} // verus!
