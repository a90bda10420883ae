use vstd::prelude::*;
use petgraph::graph::NodeIndex;
use petgraph::stable_graph::StableGraph;
use petgraph::Direction;
use crate::utility::resource_scope::ResourceScopeID;

verus! {

#[verifier::external_type_specification]
#[verifier::external_body]
#[verifier::reject_recursive_types(N)]
#[verifier::reject_recursive_types(E)]
#[verifier::reject_recursive_types(Ty)]
#[verifier::reject_recursive_types(Ix)]
pub struct ExStableGraph<N, E, Ty, Ix>(StableGraph<N, E, Ty, Ix>);

#[verifier::external_type_specification]
#[verifier::external_body]
pub struct ExDirected(petgraph::Directed);

/// The live node indices of a connectivity graph.
pub uninterp spec fn graph_nodes(g: StableGraph<u64, ()>) -> Set<int>;

/// The live edges `(source, target)` of a connectivity graph, oldest first.
pub uninterp spec fn graph_edges(g: StableGraph<u64, ()>) -> Seq<(int, int)>;

/// The weight of each live node of a connectivity graph: the bits of the key under which
/// the node is stored.
pub uninterp spec fn graph_weights(g: StableGraph<u64, ()>) -> Map<int, u64>;

/// The neighbours of `a` in one direction, most recently added edge first:
/// sources of the edges into `a` when `incoming`, targets of the edges out of `a` otherwise.
pub open spec fn adjacent(edges: Seq<(int, int)>, a: int, incoming: bool) -> Seq<int>
    decreases edges.len(),
{
    if edges.len() == 0 {
        Seq::empty()
    } else {
        let e = edges.last();
        let rest = adjacent(edges.drop_last(), a, incoming);
        if incoming {
            if e.1 == a { seq![e.0] + rest } else { rest }
        } else {
            if e.0 == a { seq![e.1] + rest } else { rest }
        }
    }
}

/// `p` is a walk along edges of the graph (possibly of a single node).
pub open spec fn is_walk(edges: Seq<(int, int)>, p: Seq<int>) -> bool {
    &&& p.len() >= 1
    &&& forall|i: int| 0 <= i < p.len() - 1 ==> #[trigger] edges.contains((p[i], p[i + 1]))
}

/// There is a walk from `a` to `b`.
pub open spec fn reaches(edges: Seq<(int, int)>, a: int, b: int) -> bool {
    exists|p: Seq<int>| #[trigger] is_walk(edges, p) && p[0] == a && p.last() == b
}

/// Every node index is below `bound`, and every edge joins two live nodes.
pub open spec fn graph_wf(nodes: Set<int>, edges: Seq<(int, int)>, bound: int) -> bool {
    &&& forall|n: int| #[trigger] nodes.contains(n) ==> 0 <= n < bound
    &&& forall|i: int| 0 <= i < edges.len() ==> nodes.contains(#[trigger] edges[i].0) && nodes.contains(edges[i].1)
    &&& bound <= u32::MAX
}

/// `NodeIndexable::node_bound` of petgraph's `StableGraph`: one past the largest live
/// node index. Claims that all live indices and edge endpoints lie below it, and that
/// it fits the graph's `u32` index type (whose maximum is reserved as "no index").
#[verifier::external_body]
pub(crate) fn node_bound(g: &StableGraph<u64, ()>) -> (b: usize)
    ensures
        graph_wf(graph_nodes(*g), graph_edges(*g), b as int),
{
    petgraph::visit::NodeIndexable::node_bound(g)
}

/// The connectivity of an audio graph: node weights are the bits of the nodes' keys.
pub type ConnectivityGraph = StableGraph<u64, ()>;

/// `StableGraph::new`: a graph without nodes or edges.
#[verifier::external_body]
pub(crate) fn new_graph() -> (r: ConnectivityGraph)
    ensures
        graph_nodes(r) == Set::<int>::empty(),
        graph_edges(r).len() == 0,
        graph_weights(r).dom() == Set::<int>::empty(),
{
    StableGraph::new()
}

/// `StableGraph::add_node`: adds a node of weight `w`, in a vacant slot if there is one and
/// after the last slot otherwise, and returns its index. petgraph panics when the index
/// space is used up, which the bound on the node count rules out.
#[verifier::external_body]
pub(crate) fn add_graph_node(g: &mut StableGraph<u64, ()>, w: u64) -> (r: usize)
    requires
        graph_nodes(*old(g)).finite(),
        graph_nodes(*old(g)).len() + 2 < u32::MAX,
    ensures
        r < u32::MAX,
        !graph_nodes(*old(g)).contains(r as int),
        graph_nodes(*final(g)) == graph_nodes(*old(g)).insert(r as int),
        graph_edges(*final(g)) == graph_edges(*old(g)),
        graph_weights(*final(g)) == graph_weights(*old(g)).insert(r as int, w),
{
    g.add_node(w).index()
}

/// `StableGraph::add_edge`: adds an edge from `a` to `b`, the newest of all. petgraph
/// panics when either end is not a live node, or when the edge index space is used up.
#[verifier::external_body]
pub(crate) fn add_graph_edge(g: &mut StableGraph<u64, ()>, a: usize, b: usize)
    requires
        graph_nodes(*old(g)).contains(a as int),
        graph_nodes(*old(g)).contains(b as int),
        graph_edges(*old(g)).len() + 2 < u32::MAX,
    ensures
        graph_nodes(*final(g)) == graph_nodes(*old(g)),
        graph_edges(*final(g)) == graph_edges(*old(g)).push((a as int, b as int)),
        graph_weights(*final(g)) == graph_weights(*old(g)),
{
    g.add_edge(NodeIndex::new(a), NodeIndex::new(b), ());
}

/// The edges left once node `a` is gone.
pub open spec fn edges_without(edges: Seq<(int, int)>, a: int) -> Seq<(int, int)> {
    edges.filter(avoids(a))
}

/// Holds of an edge that neither starts nor ends at `a`.
pub open spec fn avoids(a: int) -> spec_fn((int, int)) -> bool {
    |e: (int, int)| e.0 != a && e.1 != a
}

/// `StableGraph::remove_node`: removes `a` with every edge into or out of it, keeping the
/// other edges in order, and returns its weight; nothing happens if `a` is not live.
#[verifier::external_body]
pub(crate) fn remove_graph_node(g: &mut StableGraph<u64, ()>, a: usize) -> (r: Option<u64>)
    requires
        a < u32::MAX,
    ensures
        graph_nodes(*old(g)).contains(a as int) ==> {
            &&& r == Some(graph_weights(*old(g))[a as int])
            &&& graph_nodes(*final(g)) == graph_nodes(*old(g)).remove(a as int)
            &&& graph_edges(*final(g)) == edges_without(graph_edges(*old(g)), a as int)
            &&& graph_weights(*final(g)) == graph_weights(*old(g)).remove(a as int)
        },
        !graph_nodes(*old(g)).contains(a as int) ==> r is None && *final(g) == *old(g),
{
    g.remove_node(NodeIndex::new(a))
}

/// `StableGraph::contains_node`: whether the index names a live node.
#[verifier::external_body]
pub(crate) fn contains_node(g: &StableGraph<u64, ()>, n: usize) -> (r: bool)
    requires
        n < u32::MAX,
    ensures
        r == graph_nodes(*g).contains(n as int),
{
    g.contains_node(NodeIndex::new(n))
}

/// `StableGraph::node_weight`: the weight of `a` if it is a live node.
#[verifier::external_body]
pub(crate) fn node_weight(g: &StableGraph<u64, ()>, a: usize) -> (r: Option<u64>)
    requires
        a < u32::MAX,
    ensures
        graph_nodes(*g).contains(a as int) ==> r == Some(graph_weights(*g)[a as int]),
        !graph_nodes(*g).contains(a as int) ==> r is None,
{
    g.node_weight(NodeIndex::new(a)).copied()
}

/// `StableGraph::node_count`: how many nodes are live.
#[verifier::external_body]
pub(crate) fn node_count(g: &StableGraph<u64, ()>) -> (r: usize)
    ensures
        r == graph_nodes(*g).len(),
{
    g.node_count()
}

/// `StableGraph::edge_count`: how many edges are live.
#[verifier::external_body]
pub(crate) fn edge_count(g: &StableGraph<u64, ()>) -> (r: usize)
    ensures
        r == graph_edges(*g).len(),
{
    g.edge_count()
}

/// `StableGraph::neighbors_directed` collected into indices. petgraph documents that
/// for a directed graph neighbours are listed in reverse order of edge addition.
#[verifier::external_body]
pub(crate) fn neighbors_directed(g: &StableGraph<u64, ()>, a: usize, incoming: bool) -> (r: Vec<usize>)
    requires
        graph_nodes(*g).contains(a as int),
    ensures
        r@.len() == adjacent(graph_edges(*g), a as int, incoming).len(),
        forall|j: int| 0 <= j < r@.len() ==> r@[j] as int == #[trigger] adjacent(graph_edges(*g), a as int, incoming)[j],
{
    let dir = match incoming {
        true => Direction::Incoming,
        false => Direction::Outgoing,
    };
    g.neighbors_directed(NodeIndex::new(a), dir).map(|n| n.index()).collect()
}

/// `StableGraph::externals(Incoming)` collected into indices: the live nodes without
/// incoming edges, in increasing index order.
#[verifier::external_body]
pub(crate) fn sources(g: &StableGraph<u64, ()>) -> (r: Vec<usize>)
    ensures
        forall|i: int, j: int| 0 <= i < j < r@.len() ==> r@[i] < r@[j],
        forall|n: usize| #[trigger] r@.contains(n) <==> (graph_nodes(*g).contains(n as int)
            && adjacent(graph_edges(*g), n as int, true).len() == 0),
{
    g.externals(Direction::Incoming).map(|n| n.index()).collect()
}

/// `petgraph::algo::has_path_connecting`: a depth first search from `from`, which
/// answers whether `to` can be reached by following edges (a node reaches itself).
#[verifier::external_body]
pub(crate) fn has_path_connecting(g: &StableGraph<u64, ()>, from: usize, to: usize) -> (r: bool)
    requires
        graph_nodes(*g).contains(from as int),
        graph_nodes(*g).contains(to as int),
    ensures
        r == reaches(graph_edges(*g), from as int, to as int),
{
    petgraph::algo::has_path_connecting(g, NodeIndex::new(from), NodeIndex::new(to), None)
}

/// Every listed neighbour is joined to `a` by an edge in the given direction, and every
/// such edge is listed.
pub proof fn lemma_adjacent(edges: Seq<(int, int)>, a: int, incoming: bool)
    ensures
        incoming ==> forall|j: int| #![trigger adjacent(edges, a, incoming)[j]]
            0 <= j < adjacent(edges, a, incoming).len() ==> edges.contains((adjacent(edges, a, incoming)[j], a)),
        incoming ==> forall|x: int| #[trigger] edges.contains((x, a)) ==> adjacent(edges, a, incoming).contains(x),
        !incoming ==> forall|j: int| #![trigger adjacent(edges, a, incoming)[j]]
            0 <= j < adjacent(edges, a, incoming).len() ==> edges.contains((a, adjacent(edges, a, incoming)[j])),
        !incoming ==> forall|x: int| #[trigger] edges.contains((a, x)) ==> adjacent(edges, a, incoming).contains(x),
    decreases edges.len(),
{
    if edges.len() > 0 {
        let rest = edges.drop_last();
        lemma_adjacent(rest, a, incoming);
        let adj = adjacent(edges, a, incoming);
        let radj = adjacent(rest, a, incoming);
        let e = edges.last();
        let hit = (incoming && e.1 == a) || (!incoming && e.0 == a);
        assert forall|j: int| 0 <= j < adj.len() implies edges.contains(
            if incoming { (adj[j], a) } else { (a, adj[j]) }) by {
            if hit && j == 0 {
                assert(edges[edges.len() - 1] == e);
            } else {
                let jr = if hit { j - 1 } else { j };
                assert(adj[j] == radj[jr]);
                let p = if incoming { (radj[jr], a) } else { (a, radj[jr]) };
                assert(rest.contains(p));
                let k = choose|k: int| 0 <= k < rest.len() && rest[k] == p;
                assert(edges[k] == p);
            }
        }
        assert forall|x: int| edges.contains(if incoming { (x, a) } else { (a, x) })
            implies adj.contains(x) by {
            let p = if incoming { (x, a) } else { (a, x) };
            let k = choose|k: int| 0 <= k < edges.len() && edges[k] == p;
            if k == edges.len() - 1 {
                assert(adj[0] == x);
            } else {
                assert(rest[k] == p);
                assert(rest.contains(p));
                assert(radj.contains(x));
                let m = choose|m: int| 0 <= m < radj.len() && radj[m] == x;
                if hit {
                    assert(adj[m + 1] == x);
                } else {
                    assert(adj[m] == x);
                }
            }
        }
    }
}

/// In a well formed graph, the neighbours of a node are live nodes below the bound.
pub proof fn lemma_adjacent_nodes(nodes: Set<int>, edges: Seq<(int, int)>, bound: int, a: int, incoming: bool)
    requires
        graph_wf(nodes, edges, bound),
    ensures
        forall|j: int| 0 <= j < adjacent(edges, a, incoming).len() ==>
            nodes.contains(#[trigger] adjacent(edges, a, incoming)[j]) && 0 <= adjacent(edges, a, incoming)[j] < bound,
{
    lemma_adjacent(edges, a, incoming);
    let adj = adjacent(edges, a, incoming);
    assert forall|j: int| 0 <= j < adj.len() implies nodes.contains(#[trigger] adj[j]) && 0 <= adj[j] < bound by {
        if incoming {
            assert(edges.contains((adj[j], a)));
            let k = choose|k: int| 0 <= k < edges.len() && edges[k] == (adj[j], a);
            assert(nodes.contains(edges[k].0));
        } else {
            assert(edges.contains((a, adj[j])));
            let k = choose|k: int| 0 <= k < edges.len() && edges[k] == (a, adj[j]);
            assert(nodes.contains(edges[k].0));
            assert(nodes.contains(edges[k].1));
        }
    }
}

/// Whoever feeds into a node that reaches `b` reaches `b` too.
pub proof fn lemma_reaches_pred(edges: Seq<(int, int)>, m: int, n: int, b: int)
    requires
        edges.contains((m, n)),
        n == b || reaches(edges, n, b),
    ensures
        reaches(edges, m, b),
{
    if n == b {
        let p = seq![m, n];
        assert(p[0] == m && p[1] == n);
        assert(is_walk(edges, p));
    } else {
        let p = choose|p: Seq<int>| #[trigger] is_walk(edges, p) && p[0] == n && p.last() == b;
        let q = seq![m] + p;
        assert forall|i: int| 0 <= i < q.len() - 1 implies #[trigger] edges.contains((q[i], q[i + 1])) by {
            if i == 0 {
                assert(q[0] == m && q[1] == p[0]);
            } else {
                assert(q[i] == p[i - 1] && q[i + 1] == p[i]);
                assert(edges.contains((p[i - 1], p[(i - 1) + 1])));
            }
        }
        assert(is_walk(edges, q));
        assert(q.last() == p.last());
    }
}


/// Whether a node makes sound of its own or transforms the sound of its inputs.
#[derive(Copy, Clone, Debug, PartialEq, Eq, Structural)]
pub enum NodeType {
    Source,
    Effect,
}

/// What the cleanup pass needs to know of one node of the graph.
#[derive(Copy, Clone, Debug)]
pub struct NodeStatus {
    pub node_type: NodeType,
    /// Set once a source node has nothing more to play.
    pub finished_playing: bool,
    /// A node pinned to a scope is kept (even without inputs) until that scope expires.
    pub pinned_scope: Option<ResourceScopeID>,
}

/// The scope ids are in non-decreasing order.
pub open spec fn ids_sorted(ids: Seq<ResourceScopeID>) -> bool {
    forall|i: int, j: int| 0 <= i <= j < ids.len() ==> ids[i].0 <= ids[j].0
}

/// Node `n` is due for removal: it is a live node other than the output, and it is a
/// finished source, an unpinned effect without inputs, cut off from the output, or
/// pinned to an expired scope.
pub open spec fn is_finished(
    nodes: Set<int>,
    edges: Seq<(int, int)>,
    output: int,
    status: Seq<NodeStatus>,
    expired: Seq<ResourceScopeID>,
    n: int,
) -> bool {
    let st = status[n];
    &&& nodes.contains(n)
    &&& n != output
    &&& {
        ||| st.node_type == NodeType::Source && st.finished_playing
        ||| st.node_type == NodeType::Effect && st.pinned_scope is None && adjacent(edges, n, true).len() == 0
        ||| !reaches(edges, n, output)
        ||| (st.pinned_scope matches Some(s) && expired.contains(s))
    }
}

/// What the selection of finished nodes picks, case by case, for any `selected` that
/// `select_finished_nodes` may return: every live node but the output that is pinned to an
/// expired scope, whatever its kind; every finished source; every unpinned effect without
/// inputs; every node cut off from the output. The output and dead indices are never
/// picked, and a node in none of these cases is kept.
pub proof fn lemma_selection_cases(
    nodes: Set<int>,
    edges: Seq<(int, int)>,
    output: int,
    status: Seq<NodeStatus>,
    expired: Seq<ResourceScopeID>,
    selected: Seq<usize>,
    n: usize,
)
    requires
        forall|m: usize| #[trigger] selected.contains(m) <==> is_finished(nodes, edges, output, status, expired, m as int),
    ensures
        nodes.contains(n as int) && n as int != output && (status[n as int].pinned_scope matches Some(sc) && expired.contains(sc))
            ==> selected.contains(n),
        nodes.contains(n as int) && n as int != output && status[n as int].node_type == NodeType::Source
            && status[n as int].finished_playing ==> selected.contains(n),
        nodes.contains(n as int) && n as int != output && status[n as int].node_type == NodeType::Effect
            && status[n as int].pinned_scope is None && adjacent(edges, n as int, true).len() == 0 ==> selected.contains(n),
        nodes.contains(n as int) && n as int != output && !reaches(edges, n as int, output) ==> selected.contains(n),
        n as int == output ==> !selected.contains(n),
        !nodes.contains(n as int) ==> !selected.contains(n),
        nodes.contains(n as int) && reaches(edges, n as int, output)
            && !(status[n as int].node_type == NodeType::Source && status[n as int].finished_playing)
            && !(status[n as int].node_type == NodeType::Effect && status[n as int].pinned_scope is None
                && adjacent(edges, n as int, true).len() == 0)
            && !(status[n as int].pinned_scope matches Some(sc) && expired.contains(sc))
            ==> !selected.contains(n),
{
    assert(selected.contains(n) <==> is_finished(nodes, edges, output, status, expired, n as int));
}

/// Binary search for `id` in a sorted list of scope ids.
pub fn contains_scope(ids: &Vec<ResourceScopeID>, id: ResourceScopeID) -> (r: bool)
    requires
        ids_sorted(ids@),
    ensures
        r == ids@.contains(id),
{
    let mut lo: usize = 0;
    let mut hi: usize = ids.len();
    while lo < hi
        invariant
            0 <= lo <= hi <= ids@.len(),
            ids_sorted(ids@),
            forall|i: int| 0 <= i < lo ==> ids@[i].0 < id.0,
            forall|i: int| hi <= i < ids@.len() ==> ids@[i].0 > id.0,
        decreases hi - lo,
    {
        let mid = lo + (hi - lo) / 2;
        let m = ids[mid].0;
        if m == id.0 {
            assert(ids@[mid as int] == id);
            return true;
        } else if m < id.0 {
            lo = mid + 1;
        } else {
            hi = mid;
        }
    }
    assert forall|i: int| 0 <= i < ids@.len() implies ids@[i] != id by {
        if i < lo {
        } else {
        }
    }
    false
}

/// The nodes that the cleanup pass removes, in increasing index order. `status` is indexed
/// by node index; `expired` lists the scopes that have expired, sorted.
pub fn select_finished_nodes(
    g: &StableGraph<u64, ()>,
    output: usize,
    status: &Vec<NodeStatus>,
    expired: &Vec<ResourceScopeID>,
) -> (r: Vec<usize>)
    requires
        graph_nodes(*g).contains(output as int),
        forall|n: int| #[trigger] graph_nodes(*g).contains(n) ==> n < status@.len(),
        ids_sorted(expired@),
    ensures
        forall|i: int, j: int| 0 <= i < j < r@.len() ==> r@[i] < r@[j],
        forall|n: usize| #[trigger] r@.contains(n) <==> is_finished(
            graph_nodes(*g), graph_edges(*g), output as int, status@, expired@, n as int),
{
    let bound = node_bound(g);
    let ghost nodes = graph_nodes(*g);
    let ghost edges = graph_edges(*g);
    let mut r: Vec<usize> = Vec::new();
    let mut n: usize = 0;
    while n < bound
        invariant
            n <= bound,
            nodes == graph_nodes(*g),
            edges == graph_edges(*g),
            graph_wf(nodes, edges, bound as int),
            nodes.contains(output as int),
            forall|m: int| #[trigger] nodes.contains(m) ==> m < status@.len(),
            ids_sorted(expired@),
            forall|i: int, j: int| 0 <= i < j < r@.len() ==> r@[i] < r@[j],
            forall|i: int| 0 <= i < r@.len() ==> r@[i] < n,
            forall|m: usize| m < n ==> (#[trigger] r@.contains(m) <==> is_finished(
                nodes, edges, output as int, status@, expired@, m as int)),
        decreases bound - n,
    {
        let ghost r0 = r@;
        let mut remove = false;
        if n != output && contains_node(g, n) {
            let st = status[n];
            let finished = match st.node_type {
                NodeType::Source => st.finished_playing,
                NodeType::Effect => st.pinned_scope.is_none() && neighbors_directed(g, n, true).len() == 0,
            };
            if finished {
                remove = true;
            } else if !has_path_connecting(g, n, output) {
                remove = true;
            } else {
                match st.pinned_scope {
                    Some(s) => {
                        remove = contains_scope(expired, s);
                    },
                    None => {},
                }
            }
        }
        assert(remove == is_finished(nodes, edges, output as int, status@, expired@, n as int));
        if remove {
            r.push(n);
        }
        assert forall|m: usize| m < n + 1 implies (#[trigger] r@.contains(m) <==> is_finished(
            nodes, edges, output as int, status@, expired@, m as int)) by {
            if m < n {
                if r@.contains(m) && remove {
                    let k = choose|k: int| 0 <= k < r@.len() && r@[k] == m;
                    if k == r0.len() {
                    } else {
                        assert(r0[k] == m);
                    }
                }
                if r0.contains(m) {
                    let k = choose|k: int| 0 <= k < r0.len() && r0[k] == m;
                    assert(r@[k] == m);
                }
            } else {
                if remove {
                    assert(r@[r0.len() as int] == m);
                } else if r@.contains(m) {
                    let k = choose|k: int| 0 <= k < r@.len() && r@[k] == m;
                    assert(r0[k] == m);
                }
            }
        }
        n = n + 1;
    }
    assert forall|m: usize| #[trigger] r@.contains(m) <==> is_finished(
        graph_nodes(*g), graph_edges(*g), output as int, status@, expired@, m as int) by {
        if m >= bound {
            if r@.contains(m) {
                let k = choose|k: int| 0 <= k < r@.len() && r@[k] == m;
            }
        }
    }
    r
}

} // verus!
