use vstd::prelude::*;
use vstd::set_lib::*;
use petgraph::stable_graph::StableGraph;
use crate::audio::node_graph::{adjacent, reaches, graph_nodes, graph_edges, graph_wf, node_bound, neighbors_directed, sources, has_path_connecting, lemma_adjacent, lemma_adjacent_nodes, lemma_reaches_pred};

verus! {

/// `n` is the output node or has a path to it.
pub open spec fn feeds(edges: Seq<(int, int)>, output: int, n: int) -> bool {
    n == output || reaches(edges, n, output)
}

/// The level assigned to node `n` obeys the scheduling rule: a node is scheduled exactly
/// when it is live, feeds the output and all of its inputs are scheduled; a scheduled
/// node without inputs runs in workgroup 0, any other one runs in the workgroup right
/// after the last of its inputs.
pub open spec fn level_ok(
    nodes: Set<int>,
    edges: Seq<(int, int)>,
    output: int,
    lv: Seq<Option<usize>>,
    n: int,
) -> bool {
    let ins = adjacent(edges, n, true);
    &&& (lv[n] is Some <==> (nodes.contains(n) && feeds(edges, output, n) && forall|j: int|
        0 <= j < ins.len() ==> (#[trigger] lv[ins[j]]) is Some))
    &&& (lv[n] is Some ==> {
        &&& forall|j: int| 0 <= j < ins.len() ==> (#[trigger] lv[ins[j]])->0 < lv[n]->0
        &&& ins.len() == 0 ==> lv[n]->0 == 0
        &&& ins.len() > 0 ==> exists|j: int| 0 <= j < ins.len() && (#[trigger] lv[ins[j]])->0 + 1 == lv[n]->0
    })
}

/// `lv` gives every node index its workgroup, or `None` if the node is not scheduled.
pub open spec fn is_schedule(nodes: Set<int>, edges: Seq<(int, int)>, output: int, lv: Seq<Option<usize>>) -> bool {
    forall|n: int| 0 <= n < lv.len() ==> #[trigger] level_ok(nodes, edges, output, lv, n)
}

/// The node indices that have been given a level.
pub open spec fn assigned(lv: Seq<Option<usize>>) -> Set<int> {
    Set::new(|n: int| 0 <= n < lv.len() && lv[n] is Some)
}

proof fn lemma_assigned_bounded(lv: Seq<Option<usize>>)
    ensures
        assigned(lv).finite(),
        assigned(lv).len() <= lv.len(),
{
    lemma_int_range(0, lv.len() as int);
    lemma_len_subset(assigned(lv), set_int_range(0, lv.len() as int));
}

proof fn lemma_assigned_grows(a: Seq<Option<usize>>, b: Seq<Option<usize>>, n: int)
    requires
        a.len() == b.len(),
        forall|m: int| 0 <= m < a.len() && a[m] is Some ==> b[m] is Some,
        0 <= n < a.len(),
        a[n] is None,
        b[n] is Some,
    ensures
        assigned(a).len() < assigned(b).len(),
{
    lemma_assigned_bounded(b);
    assert(assigned(a).subset_of(assigned(b).remove(n)));
    lemma_len_subset(assigned(a), assigned(b).remove(n));
}

/// Workgroup `w` lists, without repetition, exactly the nodes of level `w`.
pub open spec fn rounds_match(lv: Seq<Option<usize>>, rounds: Seq<Seq<usize>>) -> bool {
    &&& forall|w: int, i: int| 0 <= w < rounds.len() && 0 <= i < rounds[w].len() ==>
        (#[trigger] rounds[w][i]) < lv.len() && lv[rounds[w][i] as int] == Some(w as usize)
    &&& forall|w: int, i: int, j: int| 0 <= w < rounds.len() && 0 <= i < j < rounds[w].len() ==>
        #[trigger] rounds[w][i] != #[trigger] rounds[w][j]
    &&& forall|n: int| 0 <= n < lv.len() && (#[trigger] lv[n]) is Some ==>
        lv[n]->0 < rounds.len() && rounds[lv[n]->0 as int].contains(n as usize)
}

/// Every input of `n` has a level.
pub open spec fn inputs_assigned(edges: Seq<(int, int)>, lv: Seq<Option<usize>>, n: int) -> bool {
    forall|j: int| 0 <= j < adjacent(edges, n, true).len() ==> (#[trigger] lv[adjacent(edges, n, true)[j]]) is Some
}

/// Every input of `n` has a level below `k`.
pub open spec fn inputs_before(edges: Seq<(int, int)>, lv: Seq<Option<usize>>, n: int, k: int) -> bool {
    forall|j: int| 0 <= j < adjacent(edges, n, true).len() ==>
        (#[trigger] lv[adjacent(edges, n, true)[j]]) is Some && lv[adjacent(edges, n, true)[j]]->0 < k
}

/// `n` could be scheduled but has no level yet.
spec fn waiting(nodes: Set<int>, edges: Seq<(int, int)>, output: int, lv: Seq<Option<usize>>, n: int) -> bool {
    lv[n] is None && nodes.contains(n) && feeds(edges, output, n)
}

/// Some input of `n` has no level or a level of at least `k - 1`.
spec fn has_late_input(edges: Seq<(int, int)>, lv: Seq<Option<usize>>, n: int, k: int) -> bool {
    exists|j: int| 0 <= j < adjacent(edges, n, true).len()
        && ((#[trigger] lv[adjacent(edges, n, true)[j]]) is None || lv[adjacent(edges, n, true)[j]]->0 + 1 >= k)
}

/// The level of `n` obeys the scheduling rule.
spec fn sound(nodes: Set<int>, edges: Seq<(int, int)>, output: int, lv: Seq<Option<usize>>, n: int) -> bool {
    let ins = adjacent(edges, n, true);
    &&& lv[n] is Some
    &&& nodes.contains(n)
    &&& feeds(edges, output, n)
    &&& inputs_before(edges, lv, n, lv[n]->0 as int)
    &&& ins.len() == 0 ==> lv[n]->0 == 0
    &&& ins.len() > 0 ==> exists|j: int| 0 <= j < ins.len() && (#[trigger] lv[ins[j]])->0 + 1 == lv[n]->0
}

/// The workgroups a graph's nodes are sorted into, and the level of each node.
pub struct Schedule {
    /// For each node index, the workgroup the node runs in, if it runs at all.
    pub levels: Vec<Option<usize>>,
    /// The nodes of each workgroup, in the order they were visited. The last
    /// workgroup may be empty.
    pub rounds: Vec<Vec<usize>>,
}

impl Schedule {
    pub open spec fn rounds_view(&self) -> Seq<Seq<usize>> {
        self.rounds@.map_values(|r: Vec<usize>| r@)
    }
}

/// Sorts the nodes that feed the output into workgroups: starting from the nodes without
/// inputs, a node joins the first workgroup after all of its inputs have been processed.
/// Nodes that do not feed the output, and nodes that depend on a cycle, are left out.
pub fn compute_schedule(g: &StableGraph<u64, ()>, output: usize) -> (s: Schedule)
    requires
        graph_nodes(*g).contains(output as int),
    ensures
        graph_wf(graph_nodes(*g), graph_edges(*g), s.levels@.len() as int),
        is_schedule(graph_nodes(*g), graph_edges(*g), output as int, s.levels@),
        rounds_match(s.levels@, s.rounds_view()),
{
    let bound = node_bound(g);
    let ghost nodes = graph_nodes(*g);
    let ghost edges = graph_edges(*g);
    let ghost o = output as int;

    let mut levels: Vec<Option<usize>> = Vec::new();
    let mut i: usize = 0;
    while i < bound
        invariant
            i <= bound,
            levels@.len() == i,
            forall|n: int| 0 <= n < i ==> levels@[n] is None,
        decreases bound - i,
    {
        levels.push(None);
        i += 1;
    }

    let mut to_visit = sources(g);
    let mut rounds: Vec<Vec<usize>> = Vec::new();

    proof {
        lemma_assigned_bounded(levels@);
        assert forall|n: int| 0 <= n < bound && #[trigger] waiting(nodes, edges, o, levels@, n)
            && inputs_assigned(edges, levels@, n) implies to_visit@.contains(n as usize) by {
            let ins = adjacent(edges, n, true);
            if ins.len() > 0 {
                lemma_adjacent_nodes(nodes, edges, bound as int, n, true);
                assert(levels@[ins[0]] is Some);
            }
        }
        assert(rounds@.map_values(|r: Vec<usize>| r@) =~= Seq::<Seq<usize>>::empty());
        assert forall|i: int| 0 <= i < to_visit@.len() implies nodes.contains(#[trigger] to_visit@[i] as int) by {
            assert(to_visit@.contains(to_visit@[i]));
        }
    }

    while to_visit.len() > 0
        invariant
            graph_wf(nodes, edges, bound as int),
            nodes.contains(o),
            nodes == graph_nodes(*g),
            edges == graph_edges(*g),
            o == output as int,
            levels@.len() == bound,
            assigned(levels@).len() <= bound,
            rounds_match(levels@, rounds@.map_values(|r: Vec<usize>| r@)),
            forall|i: int| 0 <= i < to_visit@.len() ==> nodes.contains(#[trigger] to_visit@[i] as int),
            forall|n: int| 0 <= n < bound && (#[trigger] levels@[n]) is Some ==> sound(nodes, edges, o, levels@, n),
            forall|n: int| 0 <= n < bound && #[trigger] waiting(nodes, edges, o, levels@, n)
                && inputs_assigned(edges, levels@, n) ==> to_visit@.contains(n as usize),
            forall|n: int| 0 <= n < bound && rounds.len() > 0 && #[trigger] waiting(nodes, edges, o, levels@, n)
                ==> has_late_input(edges, levels@, n, rounds.len() as int),
        decreases (bound - assigned(levels@).len()) * 2 + if to_visit@.len() > 0 { 1int } else { 0int },
    {
        let k = rounds.len();
        let ghost start = levels@;
        let mut round: Vec<usize> = Vec::new();
        let mut new_nodes: Vec<usize> = Vec::new();
        let mut i: usize = 0;
        while i < to_visit.len()
            invariant
                graph_wf(nodes, edges, bound as int),
                nodes.contains(o),
                nodes == graph_nodes(*g),
                edges == graph_edges(*g),
                o == output as int,
                k == rounds.len(),
                i <= to_visit.len(),
                levels@.len() == bound,
                start.len() == bound,
                rounds_match(start, rounds@.map_values(|r: Vec<usize>| r@)),
                forall|i: int| 0 <= i < to_visit@.len() ==> nodes.contains(#[trigger] to_visit@[i] as int),
                forall|n: int| 0 <= n < bound && (#[trigger] start[n]) is Some ==> sound(nodes, edges, o, start, n),
                forall|n: int| 0 <= n < bound && #[trigger] waiting(nodes, edges, o, start, n)
                    && inputs_assigned(edges, start, n) ==> to_visit@.contains(n as usize),
                forall|n: int| 0 <= n < bound && k > 0 && #[trigger] waiting(nodes, edges, o, start, n)
                    ==> has_late_input(edges, start, n, k as int),
                // progress within the round
                forall|n: int| 0 <= n < bound && (#[trigger] start[n]) is Some ==> levels@[n] == start[n],
                forall|n: int| 0 <= n < bound && start[n] is None && (#[trigger] levels@[n]) is Some
                    ==> levels@[n] == Some(k) && round@.contains(n as usize),
                forall|r: int| 0 <= r < round@.len() ==> (#[trigger] round@[r]) < bound
                    && start[round@[r] as int] is None && levels@[round@[r] as int] == Some(k),
                forall|r1: int, r2: int| 0 <= r1 < r2 < round@.len() ==> #[trigger] round@[r1] != #[trigger] round@[r2],
                forall|n: int| 0 <= n < bound && (#[trigger] levels@[n]) is Some ==> sound(nodes, edges, o, levels@, n),
                forall|t: int| 0 <= t < i ==> (#[trigger] levels@[to_visit@[t] as int]) is Some
                    || !(feeds(edges, o, to_visit@[t] as int) && inputs_before(edges, start, to_visit@[t] as int, k as int)),
                forall|r: int, j: int| 0 <= r < round@.len() && 0 <= j < adjacent(edges, round@[r] as int, false).len()
                    ==> new_nodes@.contains(#[trigger] adjacent(edges, round@[r] as int, false)[j] as usize),
                forall|t: int| 0 <= t < new_nodes@.len() ==> nodes.contains(#[trigger] new_nodes@[t] as int),
                round@.len() == 0 ==> new_nodes@.len() == 0,
            decreases to_visit.len() - i,
        {
            let n = to_visit[i];
            let ghost iter_start = levels@;
            let ghost round_start = round@;
            proof {
                assert(nodes.contains(to_visit@[i as int] as int));
            }
            if levels[n].is_none() {
                let ins = neighbors_directed(g, n, true);
                let ghost adj_in = adjacent(edges, n as int, true);
                proof {
                    lemma_adjacent_nodes(nodes, edges, bound as int, n as int, true);
                }
                let mut all = true;
                let mut j: usize = 0;
                while j < ins.len()
                    invariant
                        j <= ins@.len(),
                        levels@.len() == bound,
                        ins@.len() == adj_in.len(),
                        forall|jj: int| 0 <= jj < ins@.len() ==> ins@[jj] as int == #[trigger] adj_in[jj],
                        forall|jj: int| 0 <= jj < adj_in.len() ==> 0 <= #[trigger] adj_in[jj] < bound,
                        all <==> forall|jj: int| 0 <= jj < j ==> (#[trigger] levels@[adj_in[jj]]) is Some
                            && levels@[adj_in[jj]]->0 < k,
                    decreases ins@.len() - j,
                {
                    let m = ins[j];
                    proof {
                        assert(m as int == adj_in[j as int]);
                    }
                    match levels[m] {
                        Some(l) => {
                            if l >= k {
                                all = false;
                            }
                        },
                        None => {
                            all = false;
                        },
                    }
                    j += 1;
                }
                proof {
                    if inputs_before(edges, start, n as int, k as int) {
                        assert forall|jj: int| 0 <= jj < adj_in.len() implies
                            (#[trigger] levels@[adj_in[jj]]) is Some && levels@[adj_in[jj]]->0 < k by {
                            assert(start[adj_in[jj]] is Some);
                        }
                        assert(all);
                    }
                }
                if all {
                    let connected = n == output || has_path_connecting(g, n, output);
                    if connected {
                        let ghost before = levels@;
                        levels.set(n, Some(k));
                        round.push(n);
                        let mut outs = neighbors_directed(g, n, false);
                        let ghost old_new = new_nodes@;
                        new_nodes.append(&mut outs);
                        proof {
                            lemma_adjacent_nodes(nodes, edges, bound as int, n as int, false);
                            // the new node is sound
                            assert(start[n as int] is None);
                            assert forall|jj: int| 0 <= jj < adj_in.len() implies
                                (#[trigger] levels@[adj_in[jj]]) is Some && levels@[adj_in[jj]]->0 < k by {
                                assert(adj_in[jj] != n as int);
                            }
                            if adj_in.len() > 0 {
                                if k == 0 {
                                    assert(levels@[adj_in[0]]->0 < 0);
                                } else {
                                    assert(waiting(nodes, edges, o, start, n as int));
                                    let jw = choose|jw: int| 0 <= jw < adj_in.len()
                                        && ((#[trigger] start[adj_in[jw]]) is None || start[adj_in[jw]]->0 + 1 >= k);
                                    assert(levels@[adj_in[jw]] is Some);
                                    assert(adj_in[jw] != n as int);
                                    assert(before[adj_in[jw]] == levels@[adj_in[jw]]);
                                    if start[adj_in[jw]] is None {
                                        assert(levels@[adj_in[jw]] == Some(k));
                                    }
                                    assert(levels@[adj_in[jw]]->0 + 1 == k);
                                }
                            } else {
                                if k > 0 {
                                    assert(waiting(nodes, edges, o, start, n as int));
                                    assert(has_late_input(edges, start, n as int, k as int));
                                }
                            }
                            assert(sound(nodes, edges, o, levels@, n as int));
                            assert forall|m: int| 0 <= m < bound && (#[trigger] levels@[m]) is Some
                                implies sound(nodes, edges, o, levels@, m) by {
                                if m != n as int {
                                    assert(before[m] is Some);
                                    assert(sound(nodes, edges, o, before, m));
                                    let ins_m = adjacent(edges, m, true);
                                    lemma_adjacent_nodes(nodes, edges, bound as int, m, true);
                                    assert forall|jj: int| 0 <= jj < ins_m.len() implies
                                        (#[trigger] levels@[ins_m[jj]]) == before[ins_m[jj]] by {
                                        assert(before[ins_m[jj]] is Some);
                                    }
                                    if ins_m.len() > 0 {
                                        let jw = choose|jw: int| 0 <= jw < ins_m.len() && (#[trigger] before[ins_m[jw]])->0 + 1 == before[m]->0;
                                        assert(levels@[ins_m[jw]] == before[ins_m[jw]]);
                                    }
                                }
                            }
                            assert forall|r: int, jj: int| 0 <= r < round@.len() && 0 <= jj < adjacent(edges, round@[r] as int, false).len()
                                implies new_nodes@.contains(#[trigger] adjacent(edges, round@[r] as int, false)[jj] as usize) by {
                                let x = adjacent(edges, round@[r] as int, false)[jj] as usize;
                                if r == round@.len() - 1 {
                                    assert(new_nodes@[old_new.len() + jj] == x);
                                } else {
                                    assert(old_new.contains(x));
                                    let t = choose|t: int| 0 <= t < old_new.len() && old_new[t] == x;
                                    assert(new_nodes@[t] == x);
                                }
                            }
                            assert forall|t: int| 0 <= t < new_nodes@.len() implies nodes.contains(#[trigger] new_nodes@[t] as int) by {
                                if t >= old_new.len() {
                                    assert(new_nodes@[t] as int == adjacent(edges, n as int, false)[t - old_new.len()]);
                                }
                            }
                        }
                    }
                }
            }
            proof {
                assert forall|m: int| 0 <= m < bound && start[m] is None && (#[trigger] levels@[m]) is Some
                    implies levels@[m] == Some(k) && round@.contains(m as usize) by {
                    if iter_start[m] is Some {
                        assert(round_start.contains(m as usize));
                        let t = choose|t: int| 0 <= t < round_start.len() && round_start[t] == m as usize;
                        assert(round@[t] == m as usize);
                    } else {
                        assert(m == n as int);
                        assert(round@[round@.len() - 1] == n);
                    }
                }
                assert forall|t: int| 0 <= t < i + 1 implies (#[trigger] levels@[to_visit@[t] as int]) is Some
                    || !(feeds(edges, o, to_visit@[t] as int) && inputs_before(edges, start, to_visit@[t] as int, k as int)) by {
                    if t < i {
                        if iter_start[to_visit@[t] as int] is Some {
                        }
                    }
                }
            }
            i += 1;
        }

        let ghost old_rounds = rounds@.map_values(|r: Vec<usize>| r@);
        let ghost round_view = round@;
        let ghost old_visit = to_visit@;
        rounds.push(round);
        to_visit = new_nodes;

        proof {
            let rv = rounds@.map_values(|r: Vec<usize>| r@);
            assert(rv =~= old_rounds.push(round_view));
            lemma_assigned_bounded(levels@);
            // rounds_match for the extended rounds
            assert forall|w: int, ii: int| 0 <= w < rv.len() && 0 <= ii < rv[w].len() implies
                (#[trigger] rv[w][ii]) < levels@.len() && levels@[rv[w][ii] as int] == Some(w as usize) by {
                if w < k {
                    assert(rv[w] == old_rounds[w]);
                    assert(start[old_rounds[w][ii] as int] == Some(w as usize));
                } else {
                    assert(rv[w] == round_view);
                }
            }
            assert forall|w: int, i1: int, i2: int| 0 <= w < rv.len() && 0 <= i1 < i2 < rv[w].len() implies
                #[trigger] rv[w][i1] != #[trigger] rv[w][i2] by {
                if w < k {
                    assert(rv[w] == old_rounds[w]);
                } else {
                    assert(rv[w] == round_view);
                }
            }
            assert forall|n: int| 0 <= n < levels@.len() && (#[trigger] levels@[n]) is Some implies
                levels@[n]->0 < rv.len() && rv[levels@[n]->0 as int].contains(n as usize) by {
                if start[n] is Some {
                    assert(rv[start[n]->0 as int] == old_rounds[start[n]->0 as int]);
                } else {
                    assert(rv[k as int] == round_view);
                }
            }
            // A waiting node always has an input that was not ready at the start of the round.
            assert forall|n: int| 0 <= n < bound && #[trigger] waiting(nodes, edges, o, levels@, n) implies
                exists|jj: int| 0 <= jj < adjacent(edges, n, true).len()
                    && (#[trigger] start[adjacent(edges, n, true)[jj]]) is None by {
                let ins = adjacent(edges, n, true);
                lemma_adjacent_nodes(nodes, edges, bound as int, n, true);
                assert(start[n] is None);
                assert(waiting(nodes, edges, o, start, n));
                if old_visit.contains(n as usize) {
                    let t = choose|t: int| 0 <= t < old_visit.len() && old_visit[t] == n as usize;
                    assert(levels@[old_visit[t] as int] is None);
                    assert(!inputs_before(edges, start, n, k as int));
                    let jj = choose|jj: int| 0 <= jj < ins.len() && !((#[trigger] start[ins[jj]]) is Some && start[ins[jj]]->0 < k);
                    if start[ins[jj]] is Some {
                        assert(rounds_match(start, old_rounds));
                    }
                } else {
                    assert(!inputs_assigned(edges, start, n));
                }
            }
            // nodes still waiting with all inputs done are in the next visit list
            assert forall|n: int| 0 <= n < bound && #[trigger] waiting(nodes, edges, o, levels@, n)
                && inputs_assigned(edges, levels@, n) implies to_visit@.contains(n as usize) by {
                let ins = adjacent(edges, n, true);
                lemma_adjacent_nodes(nodes, edges, bound as int, n, true);
                lemma_adjacent(edges, n, true);
                let jj = choose|jj: int| 0 <= jj < ins.len() && (#[trigger] start[ins[jj]]) is None;
                let m = ins[jj];
                assert(levels@[m] is Some);
                assert(round_view.contains(m as usize));
                let r = choose|r: int| 0 <= r < round_view.len() && round_view[r] == m as usize;
                assert(edges.contains((m, n)));
                lemma_adjacent(edges, m, false);
                assert(adjacent(edges, m, false).contains(n));
                let j2 = choose|j2: int| 0 <= j2 < adjacent(edges, m, false).len() && adjacent(edges, m, false)[j2] == n;
                assert(round_view[r] as int == m);
                assert(to_visit@.contains(adjacent(edges, round_view[r] as int, false)[j2] as usize));
            }
            assert forall|n: int| 0 <= n < bound && rounds.len() > 0 && #[trigger] waiting(nodes, edges, o, levels@, n)
                implies has_late_input(edges, levels@, n, rounds.len() as int) by {
                let ins = adjacent(edges, n, true);
                let jj = choose|jj: int| 0 <= jj < ins.len() && (#[trigger] start[ins[jj]]) is None;
                lemma_adjacent_nodes(nodes, edges, bound as int, n, true);
                assert(levels@[ins[jj]] is None || levels@[ins[jj]] == Some(k));
            }
            // progress
            assert(assigned(start).subset_of(assigned(levels@)));
            lemma_len_subset(assigned(start), assigned(levels@));
            if round_view.len() > 0 {
                lemma_assigned_grows(start, levels@, round_view[0] as int);
            }
        }
    }
    proof {
        assert forall|n: int| 0 <= n < levels@.len() implies #[trigger] level_ok(nodes, edges, o, levels@, n) by {
            if levels@[n] is Some {
                assert(sound(nodes, edges, o, levels@, n));
            } else {
                if nodes.contains(n) && feeds(edges, o, n) && inputs_assigned(edges, levels@, n) {
                    assert(waiting(nodes, edges, o, levels@, n));
                    assert(to_visit@.contains(n as usize));
                }
            }
        }
    }
    Schedule { levels, rounds }
}


/// The largest level among the nodes `s`, or -1 when `s` is empty.
pub open spec fn max_level(lv: Seq<Option<usize>>, s: Seq<int>) -> int
    decreases s.len(),
{
    if s.len() == 0 {
        -1
    } else {
        let m = max_level(lv, s.drop_last());
        let x = lv[s.last()]->0 as int;
        if m >= x { m } else { x }
    }
}

/// The last workgroup that reads the output of `n`, or `usize::MAX` for a node whose
/// output nobody reads (the output node, typically).
pub open spec fn last_use(edges: Seq<(int, int)>, lv: Seq<Option<usize>>, n: int) -> int {
    let outs = adjacent(edges, n, false);
    if outs.len() == 0 { usize::MAX as int } else { max_level(lv, outs) }
}

/// The output node is scheduled, and so is every node that a scheduled node sends to.
pub open spec fn closed_schedule(edges: Seq<(int, int)>, lv: Seq<Option<usize>>, output: int) -> bool {
    &&& 0 <= output < lv.len()
    &&& lv[output] is Some
    &&& forall|n: int, j: int| 0 <= n < lv.len() && lv[n] is Some && 0 <= j < adjacent(edges, n, false).len()
        ==> (#[trigger] lv[adjacent(edges, n, false)[j]]) is Some
}

/// Two scheduled nodes share a buffer only if one has been read for the last time
/// before the other one writes it.
pub open spec fn buffers_disjoint(edges: Seq<(int, int)>, lv: Seq<Option<usize>>, nb: Seq<Option<usize>>) -> bool {
    forall|p: int, n: int|
        0 <= p < nb.len() && 0 <= n < nb.len() && p != n && (#[trigger] nb[p]) is Some && (#[trigger] nb[n]) is Some
            && nb[p] == nb[n] ==> last_use(edges, lv, p) < lv[n]->0 || last_use(edges, lv, n) < lv[p]->0
}

proof fn lemma_max_level_bounds(lv: Seq<Option<usize>>, s: Seq<int>)
    ensures
        forall|j: int| 0 <= j < s.len() ==> lv[#[trigger] s[j]]->0 <= max_level(lv, s),
        s.len() > 0 ==> exists|j: int| 0 <= j < s.len() && lv[#[trigger] s[j]]->0 == max_level(lv, s),
    decreases s.len(),
{
    if s.len() > 0 {
        let r = s.drop_last();
        lemma_max_level_bounds(lv, r);
        assert forall|j: int| 0 <= j < s.len() implies lv[#[trigger] s[j]]->0 <= max_level(lv, s) by {
            if j < s.len() - 1 {
                assert(s[j] == r[j]);
            }
        }
        if r.len() > 0 && max_level(lv, r) >= lv[s.last()]->0 {
            let j = choose|j: int| 0 <= j < r.len() && lv[#[trigger] r[j]]->0 == max_level(lv, r);
            assert(s[j] == r[j]);
        } else {
            assert(s[s.len() - 1] == s.last());
        }
    }
}

/// In a closed schedule, a scheduled node is read after the workgroup it runs in.
proof fn lemma_last_use_after(nodes: Set<int>, edges: Seq<(int, int)>, bound: int, output: int, lv: Seq<Option<usize>>, n: int)
    requires
        graph_wf(nodes, edges, bound),
        lv.len() == bound,
        is_schedule(nodes, edges, output, lv),
        closed_schedule(edges, lv, output),
        0 <= n < bound,
        lv[n] is Some,
        lv[n]->0 < usize::MAX,
    ensures
        lv[n]->0 < last_use(edges, lv, n),
{
    let outs = adjacent(edges, n, false);
    if outs.len() > 0 {
        lemma_max_level_bounds(lv, outs);
        lemma_adjacent(edges, n, false);
        lemma_adjacent_nodes(nodes, edges, bound, n, false);
        let m = outs[0];
        assert(edges.contains((n, m)));
        lemma_adjacent(edges, m, true);
        assert(adjacent(edges, m, true).contains(n));
        let jj = choose|jj: int| 0 <= jj < adjacent(edges, m, true).len() && adjacent(edges, m, true)[jj] == n;
        assert(level_ok(nodes, edges, output, lv, m));
        assert(lv[m] is Some);
        assert(lv[adjacent(edges, m, true)[jj]]->0 < lv[m]->0);
    }
}


/// The last workgroup that reads the output of `n`, or `usize::MAX` if nobody does.
fn compute_last_use(g: &StableGraph<u64, ()>, levels: &Vec<Option<usize>>, n: usize) -> (r: usize)
    requires
        graph_wf(graph_nodes(*g), graph_edges(*g), levels@.len() as int),
        graph_nodes(*g).contains(n as int),
        forall|j: int| 0 <= j < adjacent(graph_edges(*g), n as int, false).len()
            ==> (#[trigger] levels@[adjacent(graph_edges(*g), n as int, false)[j]]) is Some,
    ensures
        r as int == last_use(graph_edges(*g), levels@, n as int),
{
    let ghost edges = graph_edges(*g);
    let outs = neighbors_directed(g, n, false);
    let ghost adj = adjacent(edges, n as int, false);
    proof {
        lemma_adjacent_nodes(graph_nodes(*g), edges, levels@.len() as int, n as int, false);
    }
    let mut latest: Option<usize> = None;
    let mut j: usize = 0;
    while j < outs.len()
        invariant
            j <= outs@.len(),
            outs@.len() == adj.len(),
            forall|jj: int| 0 <= jj < outs@.len() ==> outs@[jj] as int == #[trigger] adj[jj],
            forall|jj: int| 0 <= jj < adj.len() ==> 0 <= #[trigger] adj[jj] < levels@.len(),
            forall|jj: int| 0 <= jj < adj.len() ==> (#[trigger] levels@[adj[jj]]) is Some,
            j == 0 ==> latest is None,
            j > 0 ==> latest is Some && latest->0 as int == max_level(levels@, adj.take(j as int)),
        decreases outs@.len() - j,
    {
        let m = outs[j];
        proof {
            assert(m as int == adj[j as int]);
            assert(adj.take(j + 1).drop_last() =~= adj.take(j as int));
            assert(adj.take(j + 1).last() == adj[j as int]);
        }
        let l = levels[m].unwrap();
        latest = match latest {
            None => Some(l),
            Some(x) => Some(if x >= l { x } else { l }),
        };
        proof {
            let t = adj.take(j + 1);
            assert(max_level(levels@, t) == {
                let mm = max_level(levels@, t.drop_last());
                let xx = levels@[t.last()]->0 as int;
                if mm >= xx { mm } else { xx }
            });
            if j == 0 {
                assert(t.drop_last() =~= Seq::<int>::empty());
            }
            assert(latest->0 as int == max_level(levels@, t));
        }
        j += 1;
    }
    proof {
        assert(adj.take(adj.len() as int) =~= adj);
    }
    match latest {
        None => usize::MAX,
        Some(x) => x,
    }
}

/// No node of an earlier workgroup writes the buffer that `n` writes: `n` is the first to
/// use it.
pub open spec fn opens_buffer(lv: Seq<Option<usize>>, nb: Seq<Option<usize>>, n: int) -> bool {
    forall|m: int| 0 <= m < nb.len() && m != n && (#[trigger] nb[m]) == nb[n] ==> !(lv[m]->0 < lv[n]->0)
}

/// Buffer `b` is free for workgroup `l`: a node of an earlier workgroup writes it, every
/// such node has been read for the last time before `l`, and no node of `l` writes it.
pub open spec fn free_for(edges: Seq<(int, int)>, lv: Seq<Option<usize>>, nb: Seq<Option<usize>>, b: usize, l: int) -> bool {
    &&& exists|m: int| 0 <= m < nb.len() && (#[trigger] nb[m]) == Some(b) && lv[m]->0 < l
    &&& forall|m: int| 0 <= m < nb.len() && (#[trigger] nb[m]) == Some(b) && lv[m]->0 < l
        ==> last_use(edges, lv, m) < l
    &&& forall|m: int| 0 <= m < nb.len() && (#[trigger] nb[m]) == Some(b) ==> lv[m]->0 != l
}

/// Buffers are reused: a node takes a buffer that no earlier node wrote only when no buffer
/// of its kind (stereo or mono) is free for its workgroup.
pub open spec fn reuses_buffers(edges: Seq<(int, int)>, lv: Seq<Option<usize>>, nb: Seq<Option<usize>>, bst: Seq<bool>) -> bool {
    forall|n: int, b: usize| 0 <= n < nb.len() && (#[trigger] nb[n]) is Some && opens_buffer(lv, nb, n)
        && b < bst.len() && bst[b as int] == bst[nb[n]->0 as int]
        ==> !(#[trigger] free_for(edges, lv, nb, b, lv[n]->0 as int))
}

/// Some node writes buffer `b` and is read for the last time at `alive`.
spec fn buffer_witnessed(edges: Seq<(int, int)>, lv: Seq<Option<usize>>, nb: Seq<Option<usize>>, b: usize, alive: usize) -> bool {
    exists|m: int| 0 <= m < nb.len() && (#[trigger] nb[m]) == Some(b) && last_use(edges, lv, m) == alive
}

/// Giving node `n` of workgroup `w` a buffer keeps buffers reused: a buffer taken from the
/// free list had an earlier writer, and a new one is made only when each buffer of the
/// kind has a writer still to be read at `w` or later.
proof fn lemma_reuse_step(
    edges: Seq<(int, int)>,
    lv: Seq<Option<usize>>,
    nb0: Seq<Option<usize>>,
    bst0: Seq<bool>,
    nb1: Seq<Option<usize>>,
    bst1: Seq<bool>,
    n: int,
    w: int,
    chosen: usize,
    fresh: bool,
)
    requires
        reuses_buffers(edges, lv, nb0, bst0),
        0 <= n < nb0.len(),
        nb0[n] is None,
        lv.len() == nb0.len(),
        0 <= w < usize::MAX,
        lv[n] == Some(w as usize),
        nb1 == nb0.update(n, Some(chosen)),
        forall|m: int| 0 <= m < nb0.len() && (#[trigger] nb0[m]) is Some ==> lv[m] is Some && lv[m]->0 <= w
            && nb0[m]->0 < bst0.len(),
        fresh ==> chosen == bst0.len() && bst1 == bst0.push(bst1[chosen as int]),
        !fresh ==> chosen < bst0.len() && bst1 == bst0,
        fresh ==> forall|b: usize| b < bst0.len() && #[trigger] bst0[b as int] == bst1[chosen as int] ==>
            exists|m: int| 0 <= m < nb0.len() && (#[trigger] nb0[m]) == Some(b) && last_use(edges, lv, m) >= w,
        !fresh ==> exists|m: int| 0 <= m < nb0.len() && m != n && (#[trigger] nb0[m]) == Some(chosen) && lv[m]->0 < w,
    ensures
        reuses_buffers(edges, lv, nb1, bst1),
{
    assert forall|p: int, b: usize| 0 <= p < nb1.len() && (#[trigger] nb1[p]) is Some && opens_buffer(lv, nb1, p)
        && b < bst1.len() && bst1[b as int] == bst1[nb1[p]->0 as int]
        implies !(#[trigger] free_for(edges, lv, nb1, b, lv[p]->0 as int)) by {
        if p == n {
            if !fresh {
                let m = choose|m: int| 0 <= m < nb0.len() && m != n && (#[trigger] nb0[m]) == Some(chosen) && lv[m]->0 < w;
                assert(nb1[m] == nb1[n]);
            } else if b == chosen {
                assert(nb1[n] == Some(b));
            } else {
                assert(b < bst0.len());
                assert(bst1[b as int] == bst0[b as int]);
                assert(nb1[n]->0 == chosen);
                assert(bst0[b as int] == bst1[chosen as int]);
                assert(exists|m: int| 0 <= m < nb0.len() && (#[trigger] nb0[m]) == Some(b) && last_use(edges, lv, m) >= w);
                let m = choose|m: int| 0 <= m < nb0.len() && (#[trigger] nb0[m]) == Some(b) && last_use(edges, lv, m) >= w;
                assert(m != n);
                assert(nb1[m] == Some(b));
                assert(lv[m]->0 <= w);
            }
        } else {
            let l = lv[p]->0 as int;
            assert(nb0[p] is Some);
            assert(l <= w);
            assert(opens_buffer(lv, nb0, p)) by {
                assert forall|m: int| 0 <= m < nb0.len() && m != p && (#[trigger] nb0[m]) == nb0[p] implies !(lv[m]->0 < lv[p]->0) by {
                    assert(nb1[m] == nb1[p]);
                }
            }
            if free_for(edges, lv, nb1, b, l) {
                let m = choose|m: int| 0 <= m < nb1.len() && (#[trigger] nb1[m]) == Some(b) && lv[m]->0 < l;
                assert(lv[n]->0 == w);
                assert(m != n);
                assert(nb0[m] == Some(b));
                assert(b < bst0.len());
                assert(free_for(edges, lv, nb0, b, l)) by {
                    assert forall|k: int| 0 <= k < nb0.len() && (#[trigger] nb0[k]) == Some(b) && lv[k]->0 < l
                        implies last_use(edges, lv, k) < l by {
                        assert(nb1[k] == nb0[k]);
                    }
                    assert forall|k: int| 0 <= k < nb0.len() && (#[trigger] nb0[k]) == Some(b)
                        implies lv[k]->0 != l by {
                        assert(nb1[k] == nb0[k]);
                    }
                }
                assert(bst0[b as int] == bst0[nb0[p]->0 as int]);
            }
        }
    }
}

/// Returns to the free lists every buffer whose last reader ran in workgroup `w`.
fn release_buffers(alive: &Vec<usize>, bst: &Vec<bool>, w: usize, free_mono: &mut Vec<usize>, free_stereo: &mut Vec<usize>)
    requires
        alive@.len() == bst@.len(),
        forall|x: usize| #[trigger] old(free_stereo)@.contains(x) <==> (x < alive@.len() && bst@[x as int] && alive@[x as int] < w),
        forall|x: usize| #[trigger] old(free_mono)@.contains(x) <==> (x < alive@.len() && !bst@[x as int] && alive@[x as int] < w),
        forall|x: int, y: int| 0 <= x < y < old(free_stereo)@.len() ==> old(free_stereo)@[x] != old(free_stereo)@[y],
        forall|x: int, y: int| 0 <= x < y < old(free_mono)@.len() ==> old(free_mono)@[x] != old(free_mono)@[y],
    ensures
        forall|x: usize| #[trigger] final(free_stereo)@.contains(x) <==> (x < alive@.len() && bst@[x as int] && alive@[x as int] <= w),
        forall|x: usize| #[trigger] final(free_mono)@.contains(x) <==> (x < alive@.len() && !bst@[x as int] && alive@[x as int] <= w),
        forall|x: int, y: int| 0 <= x < y < final(free_stereo)@.len() ==> final(free_stereo)@[x] != final(free_stereo)@[y],
        forall|x: int, y: int| 0 <= x < y < final(free_mono)@.len() ==> final(free_mono)@[x] != final(free_mono)@[y],
{
    let mut b: usize = 0;
    while b < alive.len()
        invariant
            b <= alive@.len(),
            alive@.len() == bst@.len(),
            forall|x: usize| #[trigger] free_stereo@.contains(x) <==> (x < alive@.len() && bst@[x as int]
                && (alive@[x as int] < w || (alive@[x as int] == w && x < b))),
            forall|x: usize| #[trigger] free_mono@.contains(x) <==> (x < alive@.len() && !bst@[x as int]
                && (alive@[x as int] < w || (alive@[x as int] == w && x < b))),
            forall|x: int, y: int| 0 <= x < y < free_stereo@.len() ==> free_stereo@[x] != free_stereo@[y],
            forall|x: int, y: int| 0 <= x < y < free_mono@.len() ==> free_mono@[x] != free_mono@[y],
        decreases alive@.len() - b,
    {
        let ghost fs = free_stereo@;
        let ghost fm = free_mono@;
        if alive[b] == w {
            if bst[b] {
                free_stereo.push(b);
                proof {
                    assert(!fs.contains(b));
                    assert forall|x: usize| #[trigger] free_stereo@.contains(x) <==> (fs.contains(x) || x == b) by {
                        if free_stereo@.contains(x) {
                            let t = choose|t: int| 0 <= t < free_stereo@.len() && free_stereo@[t] == x;
                            if t < fs.len() { assert(fs[t] == x); }
                        }
                        if fs.contains(x) {
                            let t = choose|t: int| 0 <= t < fs.len() && fs[t] == x;
                            assert(free_stereo@[t] == x);
                        }
                        if x == b { assert(free_stereo@[fs.len() as int] == b); }
                    }
                    assert forall|x: int, y: int| 0 <= x < y < free_stereo@.len() implies free_stereo@[x] != free_stereo@[y] by {
                        if y == fs.len() { assert(fs.contains(fs[x])); }
                    }
                }
            } else {
                free_mono.push(b);
                proof {
                    assert(!fm.contains(b));
                    assert forall|x: usize| #[trigger] free_mono@.contains(x) <==> (fm.contains(x) || x == b) by {
                        if free_mono@.contains(x) {
                            let t = choose|t: int| 0 <= t < free_mono@.len() && free_mono@[t] == x;
                            if t < fm.len() { assert(fm[t] == x); }
                        }
                        if fm.contains(x) {
                            let t = choose|t: int| 0 <= t < fm.len() && fm[t] == x;
                            assert(free_mono@[t] == x);
                        }
                        if x == b { assert(free_mono@[fm.len() as int] == b); }
                    }
                    assert forall|x: int, y: int| 0 <= x < y < free_mono@.len() implies free_mono@[x] != free_mono@[y] by {
                        if y == fm.len() { assert(fm.contains(fm[x])); }
                    }
                }
            }
        }
        b += 1;
    }
}

/// A buffer for every scheduled node, and the kind (stereo or mono) of every buffer.
pub struct BufferAllocation {
    pub node_buffers: Vec<Option<usize>>,
    pub buffer_stereo: Vec<bool>,
}

/// Gives every scheduled node an output buffer of its own kind, handing a buffer on to a
/// later node once the workgroups that read it have run.
fn allocate_buffers(g: &StableGraph<u64, ()>, sched: &Schedule, output: usize, stereo: &Vec<bool>) -> (a: BufferAllocation)
    requires
        graph_wf(graph_nodes(*g), graph_edges(*g), sched.levels@.len() as int),
        is_schedule(graph_nodes(*g), graph_edges(*g), output as int, sched.levels@),
        rounds_match(sched.levels@, sched.rounds_view()),
        closed_schedule(graph_edges(*g), sched.levels@, output as int),
        forall|n: int| graph_nodes(*g).contains(n) ==> n < stereo@.len(),
    ensures
        a.node_buffers@.len() == sched.levels@.len(),
        forall|n: int| 0 <= n < a.node_buffers@.len() ==> ((#[trigger] a.node_buffers@[n]) is Some <==> sched.levels@[n] is Some),
        forall|n: int| 0 <= n < a.node_buffers@.len() && (#[trigger] a.node_buffers@[n]) is Some ==>
            a.node_buffers@[n]->0 < a.buffer_stereo@.len() && a.buffer_stereo@[a.node_buffers@[n]->0 as int] == stereo@[n],
        buffers_disjoint(graph_edges(*g), sched.levels@, a.node_buffers@),
        reuses_buffers(graph_edges(*g), sched.levels@, a.node_buffers@, a.buffer_stereo@),
{
    let ghost nodes = graph_nodes(*g);
    let ghost edges = graph_edges(*g);
    let ghost lv = sched.levels@;
    let ghost rv = sched.rounds_view();
    let bound = sched.levels.len();

    let mut nb: Vec<Option<usize>> = Vec::new();
    let mut i: usize = 0;
    while i < bound
        invariant
            i <= bound,
            nb@.len() == i,
            forall|n: int| 0 <= n < i ==> nb@[n] is None,
        decreases bound - i,
    {
        nb.push(None);
        i += 1;
    }

    let mut alive: Vec<usize> = Vec::new();
    let mut bst: Vec<bool> = Vec::new();
    let mut free_mono: Vec<usize> = Vec::new();
    let mut free_stereo: Vec<usize> = Vec::new();

    let nrounds = sched.rounds.len();
    let mut w: usize = 0;
    while w < nrounds
        invariant
            nrounds == sched.rounds@.len(),
            graph_wf(nodes, edges, bound as int),
            nodes == graph_nodes(*g),
            edges == graph_edges(*g),
            lv == sched.levels@,
            rv == sched.rounds_view(),
            lv.len() == bound,
            is_schedule(nodes, edges, output as int, lv),
            rounds_match(lv, rv),
            closed_schedule(edges, lv, output as int),
            forall|n: int| nodes.contains(n) ==> n < stereo@.len(),
            w <= nrounds,
            nb@.len() == bound,
            alive@.len() == bst@.len(),
            forall|n: int| 0 <= n < bound ==> ((#[trigger] nb@[n]) is Some <==> (lv[n] is Some && lv[n]->0 < w)),
            forall|n: int| 0 <= n < bound && (#[trigger] nb@[n]) is Some ==>
                nb@[n]->0 < alive@.len() && bst@[nb@[n]->0 as int] == stereo@[n]
                && last_use(edges, lv, n) <= alive@[nb@[n]->0 as int],
            buffers_disjoint(edges, lv, nb@),
            forall|b: usize| #[trigger] free_stereo@.contains(b) <==> (b < alive@.len() && bst@[b as int] && alive@[b as int] < w),
            forall|b: usize| #[trigger] free_mono@.contains(b) <==> (b < alive@.len() && !bst@[b as int] && alive@[b as int] < w),
            forall|x: int, y: int| 0 <= x < y < free_stereo@.len() ==> free_stereo@[x] != free_stereo@[y],
            forall|x: int, y: int| 0 <= x < y < free_mono@.len() ==> free_mono@[x] != free_mono@[y],
            reuses_buffers(edges, lv, nb@, bst@),
            forall|b: usize| b < alive@.len() ==> #[trigger] buffer_witnessed(edges, lv, nb@, b, alive@[b as int]),
            forall|m: int| 0 <= m < bound && (#[trigger] nb@[m]) is Some ==> lv[m]->0 < last_use(edges, lv, m),
        decreases nrounds - w,
    {
        let round = &sched.rounds[w];
        let ghost rw = rv[w as int];
        proof {
            assert(rw == round@);
        }
        let mut idx: usize = 0;
        while idx < round.len()
            invariant
                graph_wf(nodes, edges, bound as int),
                nodes == graph_nodes(*g),
                edges == graph_edges(*g),
                lv == sched.levels@,
                rv == sched.rounds_view(),
                lv.len() == bound,
                is_schedule(nodes, edges, output as int, lv),
                rounds_match(lv, rv),
                closed_schedule(edges, lv, output as int),
                forall|n: int| nodes.contains(n) ==> n < stereo@.len(),
                w < nrounds,
                nrounds == sched.rounds@.len(),
                rw == rv[w as int],
                rw == round@,
                idx <= round@.len(),
                nb@.len() == bound,
                alive@.len() == bst@.len(),
                forall|n: int| 0 <= n < bound ==> ((#[trigger] nb@[n]) is Some <==> (lv[n] is Some
                    && (lv[n]->0 < w || rw.subrange(0, idx as int).contains(n as usize)))),
                forall|n: int| 0 <= n < bound && (#[trigger] nb@[n]) is Some ==>
                    nb@[n]->0 < alive@.len() && bst@[nb@[n]->0 as int] == stereo@[n]
                    && last_use(edges, lv, n) <= alive@[nb@[n]->0 as int],
                buffers_disjoint(edges, lv, nb@),
                forall|b: usize| #[trigger] free_stereo@.contains(b) <==> (b < alive@.len() && bst@[b as int] && alive@[b as int] < w),
                forall|b: usize| #[trigger] free_mono@.contains(b) <==> (b < alive@.len() && !bst@[b as int] && alive@[b as int] < w),
                forall|x: int, y: int| 0 <= x < y < free_stereo@.len() ==> free_stereo@[x] != free_stereo@[y],
                forall|x: int, y: int| 0 <= x < y < free_mono@.len() ==> free_mono@[x] != free_mono@[y],
                reuses_buffers(edges, lv, nb@, bst@),
                forall|b: usize| b < alive@.len() ==> #[trigger] buffer_witnessed(edges, lv, nb@, b, alive@[b as int]),
                forall|m: int| 0 <= m < bound && (#[trigger] nb@[m]) is Some ==> lv[m]->0 < last_use(edges, lv, m),
                forall|m: int| 0 <= m < bound && (#[trigger] nb@[m]) is Some ==> lv[m]->0 <= w,
            decreases round@.len() - idx,
        {
            let n = round[idx];
            proof {
                assert(rv.len() == sched.rounds@.len());
                assert(rw[idx as int] == n);
                assert(lv[n as int] == Some(w));
                assert(level_ok(nodes, edges, output as int, lv, n as int));
                lemma_adjacent_nodes(nodes, edges, bound as int, n as int, false);
                lemma_last_use_after(nodes, edges, bound as int, output as int, lv, n as int);
                assert(!rw.subrange(0, idx as int).contains(n)) by {
                    if rw.subrange(0, idx as int).contains(n) {
                        let t = choose|t: int| 0 <= t < idx && rw.subrange(0, idx as int)[t] == n;
                        assert(rw[t] == rw[idx as int]);
                    }
                }
            }
            let latest = compute_last_use(g, &sched.levels, n);
            let st = stereo[n];
            let ghost nb_before = nb@;
            let ghost alive_before = alive@;
            let ghost bst_before = bst@;
            let ghost fs_before = free_stereo@;
            let ghost fm_before = free_mono@;
            let popped = if st { free_stereo.pop() } else { free_mono.pop() };
            let ghost chosen: int;
            match popped {
                Some(b) => {
                    proof {
                        if st {
                            assert(fs_before.contains(fs_before.last()));
                        } else {
                            assert(fm_before.contains(fm_before.last()));
                        }
                        chosen = b as int;
                    }
                    nb.set(n, Some(b));
                    alive.set(b, latest);
                },
                None => {
                    proof {
                        chosen = alive@.len() as int;
                    }
                    nb.set(n, Some(alive.len()));
                    alive.push(latest);
                    bst.push(st);
                },
            }
            proof {
                let fresh = popped is None;
                assert(lv[n as int]->0 < last_use(edges, lv, n as int));
                assert(forall|m: int| 0 <= m < bound && (#[trigger] nb_before[m]) is Some ==> lv[m] is Some && lv[m]->0 <= w
                    && nb_before[m]->0 < bst_before.len());
                if fresh {
                    assert(chosen == bst_before.len());
                    assert(bst@ =~= bst_before.push(bst@[chosen]));
                    assert forall|b: usize| b < bst_before.len() && #[trigger] bst_before[b as int] == bst@[chosen] implies
                        exists|m: int| 0 <= m < nb_before.len() && (#[trigger] nb_before[m]) == Some(b) && last_use(edges, lv, m) >= w by {
                        if st {
                            assert(!fs_before.contains(b));
                        } else {
                            assert(!fm_before.contains(b));
                        }
                        assert(buffer_witnessed(edges, lv, nb_before, b, alive_before[b as int]));
                    }
                } else {
                    assert(buffer_witnessed(edges, lv, nb_before, chosen as usize, alive_before[chosen]));
                    let m0 = choose|m: int| 0 <= m < nb_before.len() && (#[trigger] nb_before[m]) == Some(chosen as usize)
                        && last_use(edges, lv, m) == alive_before[chosen];
                    assert(lv[m0]->0 < last_use(edges, lv, m0));
                    assert(m0 != n as int);
                }
                lemma_reuse_step(edges, lv, nb_before, bst_before, nb@, bst@, n as int, w as int, chosen as usize, fresh);
                assert forall|b: usize| b < alive@.len() implies #[trigger] buffer_witnessed(edges, lv, nb@, b, alive@[b as int]) by {
                    if b as int == chosen {
                        assert(nb@[n as int] == Some(b));
                    } else {
                        assert(buffer_witnessed(edges, lv, nb_before, b, alive_before[b as int]));
                        let m = choose|m: int| 0 <= m < nb_before.len() && (#[trigger] nb_before[m]) == Some(b)
                            && last_use(edges, lv, m) == alive_before[b as int];
                        assert(nb@[m] == nb_before[m]);
                    }
                }
            }
            proof {
                let sub_before = rw.subrange(0, idx as int);
                assert(rw.subrange(0, idx + 1) =~= sub_before.push(n));
                assert(nb_before[n as int] is None);
                let reused = popped is Some;
                assert(reused ==> alive_before[chosen] < w && bst_before[chosen] == st);
                assert forall|m: int| 0 <= m < bound && (#[trigger] nb@[m]) is Some implies
                    nb@[m]->0 < alive@.len() && bst@[nb@[m]->0 as int] == stereo@[m]
                    && last_use(edges, lv, m) <= alive@[nb@[m]->0 as int] by {
                    if m != n as int {
                        assert(nb_before[m] is Some);
                        if nb_before[m]->0 as int == chosen {
                            assert(reused);
                        }
                    }
                }
                assert forall|p: int, q: int|
                    0 <= p < nb@.len() && 0 <= q < nb@.len() && p != q && (#[trigger] nb@[p]) is Some && (#[trigger] nb@[q]) is Some
                        && nb@[p] == nb@[q] implies last_use(edges, lv, p) < lv[q]->0 || last_use(edges, lv, q) < lv[p]->0 by {
                    if p == n as int {
                        assert(nb_before[q] is Some);
                        assert(reused);
                    } else if q == n as int {
                        assert(nb_before[p] is Some);
                        assert(reused);
                    } else {
                        assert(nb_before[p] is Some && nb_before[q] is Some);
                    }
                }
                assert forall|m: int| 0 <= m < bound implies ((#[trigger] nb@[m]) is Some <==> (lv[m] is Some
                    && (lv[m]->0 < w || rw.subrange(0, idx + 1).contains(m as usize)))) by {
                    if m != n as int {
                        assert(nb@[m] == nb_before[m]);
                        let sub_after = rw.subrange(0, idx + 1);
                        if sub_after.contains(m as usize) {
                            let t = choose|t: int| 0 <= t < sub_after.len() && sub_after[t] == m as usize;
                            assert(sub_before[t] == m as usize);
                        }
                    } else {
                        assert(rw.subrange(0, idx + 1)[idx as int] == n);
                    }
                }
                if st {
                    assert forall|x: int, y: int| 0 <= x < y < free_stereo@.len() implies free_stereo@[x] != free_stereo@[y] by {
                        if reused {
                            assert(free_stereo@[x] == fs_before[x] && free_stereo@[y] == fs_before[y]);
                        }
                    }
                    assert forall|x: usize| #[trigger] free_stereo@.contains(x) <==> (x < alive@.len() && bst@[x as int] && alive@[x as int] < w) by {
                        if reused {
                            if free_stereo@.contains(x) {
                                let t = choose|t: int| 0 <= t < free_stereo@.len() && free_stereo@[t] == x;
                                assert(fs_before[t] == x);
                                assert(fs_before.contains(x));
                                assert(t != fs_before.len() - 1);
                            }
                            if x < alive@.len() && bst@[x as int] && alive@[x as int] < w {
                                assert(x as int != chosen);
                                assert(fs_before.contains(x));
                                let t = choose|t: int| 0 <= t < fs_before.len() && fs_before[t] == x;
                                assert(t != fs_before.len() - 1);
                                assert(free_stereo@[t] == x);
                            }
                        }
                    }
                    assert forall|x: usize| #[trigger] free_mono@.contains(x) <==> (x < alive@.len() && !bst@[x as int] && alive@[x as int] < w) by {
                        if free_mono@.contains(x) {
                            assert(fm_before.contains(x));
                        }
                        if x < alive@.len() && !bst@[x as int] && alive@[x as int] < w {
                            assert(x as int != chosen);
                        }
                    }
                } else {
                    assert forall|x: int, y: int| 0 <= x < y < free_mono@.len() implies free_mono@[x] != free_mono@[y] by {
                        if reused {
                            assert(free_mono@[x] == fm_before[x] && free_mono@[y] == fm_before[y]);
                        }
                    }
                    assert forall|x: usize| #[trigger] free_mono@.contains(x) <==> (x < alive@.len() && !bst@[x as int] && alive@[x as int] < w) by {
                        if reused {
                            if free_mono@.contains(x) {
                                let t = choose|t: int| 0 <= t < free_mono@.len() && free_mono@[t] == x;
                                assert(fm_before[t] == x);
                                assert(fm_before.contains(x));
                                assert(t != fm_before.len() - 1);
                            }
                            if x < alive@.len() && !bst@[x as int] && alive@[x as int] < w {
                                assert(x as int != chosen);
                                assert(fm_before.contains(x));
                                let t = choose|t: int| 0 <= t < fm_before.len() && fm_before[t] == x;
                                assert(t != fm_before.len() - 1);
                                assert(free_mono@[t] == x);
                            }
                        }
                    }
                    assert forall|x: usize| #[trigger] free_stereo@.contains(x) <==> (x < alive@.len() && bst@[x as int] && alive@[x as int] < w) by {
                        if free_stereo@.contains(x) {
                            assert(fs_before.contains(x));
                        }
                        if x < alive@.len() && bst@[x as int] && alive@[x as int] < w {
                            assert(x as int != chosen);
                        }
                    }
                }
            }
            idx += 1;
        }

        release_buffers(&alive, &bst, w, &mut free_mono, &mut free_stereo);
        proof {
            assert(rw.subrange(0, rw.len() as int) =~= rw);
            assert forall|n: int| 0 <= n < bound implies ((#[trigger] nb@[n]) is Some <==> (lv[n] is Some && lv[n]->0 < w + 1)) by {
                if lv[n] is Some && lv[n]->0 == w {
                    assert(rv[w as int].contains(n as usize));
                }
                if rw.contains(n as usize) {
                    let t = choose|t: int| 0 <= t < rw.len() && rw[t] == n as usize;
                    assert(lv[rw[t] as int] == Some(w));
                }
            }
        }
        w += 1;
    }
    proof {
        assert(rv.len() == sched.rounds@.len());
    }
    BufferAllocation { node_buffers: nb, buffer_stereo: bst }
}


/// Below the level of a scheduled node, every level is taken by some node.
proof fn lemma_levels_contiguous(nodes: Set<int>, edges: Seq<(int, int)>, output: int, lv: Seq<Option<usize>>, n: int, l: int)
    requires
        graph_wf(nodes, edges, lv.len() as int),
        is_schedule(nodes, edges, output, lv),
        0 <= n < lv.len(),
        lv[n] is Some,
        0 <= l <= lv[n]->0,
    ensures
        exists|m: int| 0 <= m < lv.len() && (#[trigger] lv[m]) == Some(l as usize),
    decreases lv[n]->0 - l,
{
    if l == lv[n]->0 {
        assert(lv[n] == Some(l as usize));
    } else {
        assert(level_ok(nodes, edges, output, lv, n));
        let ins = adjacent(edges, n, true);
        lemma_adjacent_nodes(nodes, edges, lv.len() as int, n, true);
        let j = choose|j: int| 0 <= j < ins.len() && (#[trigger] lv[ins[j]])->0 + 1 == lv[n]->0;
        assert(lv[ins[j]] is Some);
        lemma_levels_contiguous(nodes, edges, output, lv, ins[j], l);
    }
}

/// Two schedules of the same graph agree on every node up to level `l`.
proof fn lemma_schedule_unique_upto(
    nodes: Set<int>,
    edges: Seq<(int, int)>,
    output: int,
    lv1: Seq<Option<usize>>,
    lv2: Seq<Option<usize>>,
    l: int,
)
    requires
        graph_wf(nodes, edges, lv1.len() as int),
        graph_wf(nodes, edges, lv2.len() as int),
        is_schedule(nodes, edges, output, lv1),
        is_schedule(nodes, edges, output, lv2),
        l >= 0,
    ensures
        forall|n: int| 0 <= n < lv1.len() && 0 <= n < lv2.len()
            && (((#[trigger] lv1[n]) is Some && lv1[n]->0 <= l) || ((#[trigger] lv2[n]) is Some && lv2[n]->0 <= l))
            ==> lv1[n] == lv2[n],
    decreases l,
{
    if l > 0 {
        lemma_schedule_unique_upto(nodes, edges, output, lv1, lv2, l - 1);
    }
    assert forall|n: int| 0 <= n < lv1.len() && 0 <= n < lv2.len()
        && (((#[trigger] lv1[n]) is Some && lv1[n]->0 <= l) || ((#[trigger] lv2[n]) is Some && lv2[n]->0 <= l))
        implies lv1[n] == lv2[n] by {
        let ins = adjacent(edges, n, true);
        lemma_adjacent_nodes(nodes, edges, lv1.len() as int, n, true);
        lemma_adjacent_nodes(nodes, edges, lv2.len() as int, n, true);
        assert(level_ok(nodes, edges, output, lv1, n));
        assert(level_ok(nodes, edges, output, lv2, n));
        if lv1[n] is Some && lv1[n]->0 <= l {
            assert forall|j: int| 0 <= j < ins.len() implies (#[trigger] lv2[ins[j]]) == lv1[ins[j]] by {
                assert(lv1[ins[j]] is Some && lv1[ins[j]]->0 < lv1[n]->0);
            }
            assert(lv2[n] is Some);
        } else {
            assert forall|j: int| 0 <= j < ins.len() implies (#[trigger] lv1[ins[j]]) == lv2[ins[j]] by {
                assert(lv2[ins[j]] is Some && lv2[ins[j]]->0 < lv2[n]->0);
            }
            assert(lv1[n] is Some);
        }
        assert forall|j: int| 0 <= j < ins.len() implies (#[trigger] lv1[ins[j]]) == lv2[ins[j]] by {}
        if ins.len() > 0 {
            let j1 = choose|j: int| 0 <= j < ins.len() && (#[trigger] lv1[ins[j]])->0 + 1 == lv1[n]->0;
            let j2 = choose|j: int| 0 <= j < ins.len() && (#[trigger] lv2[ins[j]])->0 + 1 == lv2[n]->0;
            assert(lv2[ins[j1]]->0 < lv2[n]->0);
            assert(lv1[ins[j2]]->0 < lv1[n]->0);
        }
    }
}

/// The scheduling rule leaves no choice: any two schedules of a graph give every node
/// the same workgroup.
pub proof fn lemma_schedule_unique(
    nodes: Set<int>,
    edges: Seq<(int, int)>,
    output: int,
    lv1: Seq<Option<usize>>,
    lv2: Seq<Option<usize>>,
)
    requires
        graph_wf(nodes, edges, lv1.len() as int),
        graph_wf(nodes, edges, lv2.len() as int),
        is_schedule(nodes, edges, output, lv1),
        is_schedule(nodes, edges, output, lv2),
    ensures
        forall|n: int| 0 <= n < lv1.len() && 0 <= n < lv2.len() ==> (#[trigger] lv1[n]) == lv2[n],
        forall|n: int| lv2.len() <= n < lv1.len() ==> (#[trigger] lv1[n]) is None,
{
    assert forall|n: int| 0 <= n < lv1.len() && 0 <= n < lv2.len() implies (#[trigger] lv1[n]) == lv2[n] by {
        if lv1[n] is Some {
            lemma_schedule_unique_upto(nodes, edges, output, lv1, lv2, lv1[n]->0 as int);
        } else if lv2[n] is Some {
            lemma_schedule_unique_upto(nodes, edges, output, lv1, lv2, lv2[n]->0 as int);
        }
    }
    assert forall|n: int| lv2.len() <= n < lv1.len() implies (#[trigger] lv1[n]) is None by {
        assert(level_ok(nodes, edges, output, lv1, n));
    }
}


/// One node to run: it writes `output_buffer` and reads the buffers
/// `input_buffers[inputs_start..inputs_end]` of its plan.
#[derive(Copy, Clone, Debug)]
pub struct WorkItem {
    pub node: usize,
    pub output_buffer: usize,
    pub inputs_start: usize,
    pub inputs_end: usize,
}

/// A work item runs a node of workgroup `w`, writes the node's buffer, and reads the
/// buffers of the node's inputs in petgraph's neighbour order.
pub open spec fn item_ok(
    edges: Seq<(int, int)>,
    lv: Seq<Option<usize>>,
    nb: Seq<Option<usize>>,
    inputs: Seq<usize>,
    w: int,
    it: WorkItem,
) -> bool {
    let ins = adjacent(edges, it.node as int, true);
    &&& it.node < lv.len()
    &&& lv[it.node as int] == Some(w as usize)
    &&& nb[it.node as int] == Some(it.output_buffer)
    &&& it.inputs_start <= it.inputs_end <= inputs.len()
    &&& it.inputs_end - it.inputs_start == ins.len()
    &&& forall|j: int| 0 <= j < ins.len() ==> nb[ins[j]] == Some(#[trigger] inputs[it.inputs_start + j])
}

/// How an audio graph is run: its nodes grouped into workgroups that may run in
/// parallel, one after the other, and the buffers the nodes write and read.
pub struct ExecutionPlan {
    /// For each node index, the workgroup the node runs in, if it runs at all.
    pub levels: Vec<Option<usize>>,
    /// For each node index, the buffer the node writes, if it runs at all.
    pub node_buffers: Vec<Option<usize>>,
    /// For each buffer, whether it holds stereo samples.
    pub buffer_stereo: Vec<bool>,
    pub workgroups: Vec<Vec<WorkItem>>,
    /// The input buffers of all work items, one range per item.
    pub input_buffers: Vec<usize>,
    /// The buffer written by the output node.
    pub output_buffer: usize,
}

impl ExecutionPlan {
    pub open spec fn workgroups_view(&self) -> Seq<Seq<WorkItem>> {
        self.workgroups@.map_values(|v: Vec<WorkItem>| v@)
    }

    /// The plan runs the graph's unique schedule (see `is_schedule`), gives every running
    /// node a buffer of its own kind that no other node writes while it is still to be
    /// read, and lists every running node once, in the workgroup of its level.
    pub open spec fn describes(&self, nodes: Set<int>, edges: Seq<(int, int)>, output: int, stereo: Seq<bool>) -> bool {
        let lv = self.levels@;
        let nb = self.node_buffers@;
        let wg = self.workgroups_view();
        &&& graph_wf(nodes, edges, lv.len() as int)
        &&& is_schedule(nodes, edges, output, lv)
        &&& closed_schedule(edges, lv, output)
        &&& nb.len() == lv.len()
        &&& forall|n: int| 0 <= n < nb.len() ==> ((#[trigger] nb[n]) is Some <==> lv[n] is Some)
        &&& forall|n: int| 0 <= n < nb.len() && (#[trigger] nb[n]) is Some ==>
            nb[n]->0 < self.buffer_stereo@.len() && self.buffer_stereo@[nb[n]->0 as int] == stereo[n]
        &&& buffers_disjoint(edges, lv, nb)
        &&& reuses_buffers(edges, lv, nb, self.buffer_stereo@)
        &&& forall|n: int| 0 <= n < lv.len() && (#[trigger] lv[n]) is Some ==> lv[n]->0 < usize::MAX
        &&& nb[output] == Some(self.output_buffer)
        &&& forall|w: int| 0 <= w < wg.len() ==> (#[trigger] wg[w]).len() > 0
        &&& forall|w: int, i: int| 0 <= w < wg.len() && 0 <= i < wg[w].len() ==>
            item_ok(edges, lv, nb, self.input_buffers@, w, #[trigger] wg[w][i])
        &&& forall|w: int, i: int, j: int| 0 <= w < wg.len() && 0 <= i < j < wg[w].len() ==>
            (#[trigger] wg[w][i]).node != (#[trigger] wg[w][j]).node
        &&& forall|n: int| 0 <= n < lv.len() && (#[trigger] lv[n]) is Some ==>
            lv[n]->0 < wg.len() && exists|i: int| 0 <= i < wg[lv[n]->0 as int].len() && (#[trigger] wg[lv[n]->0 as int][i]).node == n
    }
}

fn assemble(g: &StableGraph<u64, ()>, sched: &Schedule, alloc: &BufferAllocation, output: usize) -> (plan: ExecutionPlan)
    requires
        graph_wf(graph_nodes(*g), graph_edges(*g), sched.levels@.len() as int),
        is_schedule(graph_nodes(*g), graph_edges(*g), output as int, sched.levels@),
        rounds_match(sched.levels@, sched.rounds_view()),
        closed_schedule(graph_edges(*g), sched.levels@, output as int),
        alloc.node_buffers@.len() == sched.levels@.len(),
        forall|n: int| 0 <= n < alloc.node_buffers@.len() ==> ((#[trigger] alloc.node_buffers@[n]) is Some <==> sched.levels@[n] is Some),
    ensures
        plan.levels@ == sched.levels@,
        plan.node_buffers@ == alloc.node_buffers@,
        plan.buffer_stereo@ == alloc.buffer_stereo@,
        plan.node_buffers@[output as int] == Some(plan.output_buffer),
        forall|w: int| 0 <= w < plan.workgroups_view().len() ==> (#[trigger] plan.workgroups_view()[w]).len() > 0,
        forall|w: int, i: int| 0 <= w < plan.workgroups_view().len() && 0 <= i < plan.workgroups_view()[w].len() ==>
            item_ok(graph_edges(*g), plan.levels@, plan.node_buffers@, plan.input_buffers@, w, #[trigger] plan.workgroups_view()[w][i]),
        forall|w: int, i: int, j: int| 0 <= w < plan.workgroups_view().len() && 0 <= i < j < plan.workgroups_view()[w].len() ==>
            (#[trigger] plan.workgroups_view()[w][i]).node != (#[trigger] plan.workgroups_view()[w][j]).node,
        forall|n: int| 0 <= n < plan.levels@.len() && (#[trigger] plan.levels@[n]) is Some ==>
            plan.levels@[n]->0 < plan.workgroups_view().len() && exists|i: int| 0 <= i < plan.workgroups_view()[plan.levels@[n]->0 as int].len()
                && (#[trigger] plan.workgroups_view()[plan.levels@[n]->0 as int][i]).node == n,
{
    let ghost nodes = graph_nodes(*g);
    let ghost edges = graph_edges(*g);
    let ghost lv = sched.levels@;
    let ghost nb = alloc.node_buffers@;
    let ghost rv = sched.rounds_view();
    let bound = sched.levels.len();
    let nrounds = sched.rounds.len();

    let mut workgroups: Vec<Vec<WorkItem>> = Vec::new();
    let mut input_buffers: Vec<usize> = Vec::new();
    let mut w: usize = 0;
    while w < nrounds
        invariant
            graph_wf(nodes, edges, bound as int),
            nodes == graph_nodes(*g),
            edges == graph_edges(*g),
            lv == sched.levels@,
            nb == alloc.node_buffers@,
            rv == sched.rounds_view(),
            lv.len() == bound,
            nb.len() == bound,
            nrounds == sched.rounds@.len(),
            rv.len() == nrounds,
            is_schedule(nodes, edges, output as int, lv),
            rounds_match(lv, rv),
            forall|n: int| 0 <= n < bound ==> ((#[trigger] nb[n]) is Some <==> lv[n] is Some),
            w <= nrounds,
            workgroups@.len() == w || (workgroups@.len() < w && rv[workgroups@.len() as int].len() == 0),
            forall|v: int| 0 <= v < workgroups@.len() ==> (#[trigger] workgroups@[v])@.len() == rv[v].len() && rv[v].len() > 0,
            forall|v: int, i: int| 0 <= v < workgroups@.len() && 0 <= i < workgroups@[v]@.len() ==>
                (#[trigger] workgroups@[v]@[i]).node == rv[v][i]
                && item_ok(edges, lv, nb, input_buffers@, v, workgroups@[v]@[i]),
        decreases nrounds - w,
    {
        let round = &sched.rounds[w];
        proof {
            assert(rv[w as int] == round@);
        }
        if round.len() > 0 {
            proof {
                if workgroups@.len() < w {
                    let wl = workgroups@.len() as int;
                    let n0 = round@[0] as int;
                    assert(lv[n0] == Some(w));
                    lemma_levels_contiguous(nodes, edges, output as int, lv, n0, wl);
                    let m = choose|m: int| 0 <= m < lv.len() && (#[trigger] lv[m]) == Some(wl as usize);
                    assert(rv[wl].contains(m as usize));
                }
            }
            let mut items: Vec<WorkItem> = Vec::new();
            let mut i: usize = 0;
            while i < round.len()
                invariant
                    graph_wf(nodes, edges, bound as int),
                    nodes == graph_nodes(*g),
                    edges == graph_edges(*g),
                    lv == sched.levels@,
                    nb == alloc.node_buffers@,
                    lv.len() == bound,
                    nb.len() == bound,
                    rv.len() == nrounds,
                    w < nrounds,
                    rv[w as int] == round@,
                    is_schedule(nodes, edges, output as int, lv),
                    rounds_match(lv, rv),
                    forall|n: int| 0 <= n < bound ==> ((#[trigger] nb[n]) is Some <==> lv[n] is Some),
                    workgroups@.len() == w,
                    i <= round@.len(),
                    items@.len() == i,
                    forall|v: int| 0 <= v < workgroups@.len() ==> (#[trigger] workgroups@[v])@.len() == rv[v].len() && rv[v].len() > 0,
                    forall|v: int, i: int| 0 <= v < workgroups@.len() && 0 <= i < workgroups@[v]@.len() ==>
                        (#[trigger] workgroups@[v]@[i]).node == rv[v][i]
                        && item_ok(edges, lv, nb, input_buffers@, v, workgroups@[v]@[i]),
                    forall|t: int| 0 <= t < i ==> (#[trigger] items@[t]).node == round@[t]
                        && item_ok(edges, lv, nb, input_buffers@, w as int, items@[t]),
                decreases round@.len() - i,
            {
                let n = round[i];
                proof {
                    assert(rv[w as int][i as int] == n);
                    assert(lv[n as int] == Some(w));
                    assert(level_ok(nodes, edges, output as int, lv, n as int));
                    lemma_adjacent_nodes(nodes, edges, bound as int, n as int, true);
                }
                let start = input_buffers.len();
                let ins = neighbors_directed(g, n, true);
                let ghost adj = adjacent(edges, n as int, true);
                let ghost before = input_buffers@;
                let mut j: usize = 0;
                while j < ins.len()
                    invariant
                        j <= ins@.len(),
                        ins@.len() == adj.len(),
                        forall|jj: int| 0 <= jj < ins@.len() ==> ins@[jj] as int == #[trigger] adj[jj],
                        forall|jj: int| 0 <= jj < adj.len() ==> 0 <= #[trigger] adj[jj] < bound,
                        forall|jj: int| 0 <= jj < adj.len() ==> (#[trigger] lv[adj[jj]]) is Some,
                        nb == alloc.node_buffers@,
                        nb.len() == bound,
                        forall|n: int| 0 <= n < bound ==> ((#[trigger] nb[n]) is Some <==> lv[n] is Some),
                        start == before.len(),
                        input_buffers@.len() == start + j,
                        input_buffers@.subrange(0, start as int) == before,
                        forall|jj: int| 0 <= jj < j ==> nb[adj[jj]] == Some(#[trigger] input_buffers@[start + jj]),
                    decreases ins@.len() - j,
                {
                    let m = ins[j];
                    proof {
                        assert(m as int == adj[j as int]);
                        assert(nb[m as int] is Some);
                    }
                    let b = alloc.node_buffers[m].unwrap();
                    input_buffers.push(b);
                    proof {
                        assert(input_buffers@.subrange(0, start as int) =~= before);
                    }
                    j += 1;
                }
                let end = input_buffers.len();
                let ob = alloc.node_buffers[n].unwrap();
                let item = WorkItem { node: n, output_buffer: ob, inputs_start: start, inputs_end: end };
                items.push(item);
                proof {
                    assert(item_ok(edges, lv, nb, input_buffers@, w as int, item));
                    assert forall|v: int, ii: int| 0 <= v < workgroups@.len() && 0 <= ii < workgroups@[v]@.len() implies
                        (#[trigger] workgroups@[v]@[ii]).node == rv[v][ii]
                        && item_ok(edges, lv, nb, input_buffers@, v, workgroups@[v]@[ii]) by {
                        let it = workgroups@[v]@[ii];
                        assert(item_ok(edges, lv, nb, before, v, it));
                        assert forall|jj: int| 0 <= jj < adjacent(edges, it.node as int, true).len() implies
                            nb[adjacent(edges, it.node as int, true)[jj]] == Some(#[trigger] input_buffers@[it.inputs_start + jj]) by {
                            assert(before[it.inputs_start + jj] == input_buffers@.subrange(0, start as int)[it.inputs_start + jj]);
                        }
                    }
                    assert forall|t: int| 0 <= t < i + 1 implies (#[trigger] items@[t]).node == round@[t]
                        && item_ok(edges, lv, nb, input_buffers@, w as int, items@[t]) by {
                        if t < i {
                            let it = items@[t];
                            assert(item_ok(edges, lv, nb, before, w as int, it));
                            assert forall|jj: int| 0 <= jj < adjacent(edges, it.node as int, true).len() implies
                                nb[adjacent(edges, it.node as int, true)[jj]] == Some(#[trigger] input_buffers@[it.inputs_start + jj]) by {
                                assert(before[it.inputs_start + jj] == input_buffers@.subrange(0, start as int)[it.inputs_start + jj]);
                            }
                        }
                    }
                }
                i += 1;
            }
            workgroups.push(items);
        }
        w += 1;
    }

    proof {
        let wv = workgroups@.map_values(|v: Vec<WorkItem>| v@);
        assert forall|n: int| 0 <= n < lv.len() && (#[trigger] lv[n]) is Some implies
            lv[n]->0 < wv.len() && exists|i: int| 0 <= i < wv[lv[n]->0 as int].len() && (#[trigger] wv[lv[n]->0 as int][i]).node == n by {
            let l = lv[n]->0 as int;
            assert(rv[l].contains(n as usize));
            if workgroups@.len() <= l {
                lemma_levels_contiguous(nodes, edges, output as int, lv, n, workgroups@.len() as int);
                let m = choose|m: int| 0 <= m < lv.len() && (#[trigger] lv[m]) == Some(workgroups@.len() as usize);
                assert(rv[workgroups@.len() as int].contains(m as usize));
            }
            let i = choose|i: int| 0 <= i < rv[l].len() && rv[l][i] == n as usize;
            assert(wv[l] == workgroups@[l]@);
            assert(wv[l][i].node == n);
        }
    }
    let ob = alloc.node_buffers[output].unwrap();
    ExecutionPlan {
        levels: sched.levels.clone(),
        node_buffers: alloc.node_buffers.clone(),
        buffer_stereo: alloc.buffer_stereo.clone(),
        workgroups,
        input_buffers,
        output_buffer: ob,
    }
}


/// Every schedule of the graph is closed: the output runs, and every running node sends
/// only to running nodes. Graphs with a cycle upstream of a running node fail this.
pub open spec fn schedule_closes(nodes: Set<int>, edges: Seq<(int, int)>, output: int) -> bool {
    forall|lv: Seq<Option<usize>>| graph_wf(nodes, edges, lv.len() as int) && #[trigger] is_schedule(nodes, edges, output, lv)
        ==> closed_schedule(edges, lv, output)
}

proof fn lemma_closed_transfers(nodes: Set<int>, edges: Seq<(int, int)>, output: int, lv: Seq<Option<usize>>)
    requires
        nodes.contains(output),
        graph_wf(nodes, edges, lv.len() as int),
        is_schedule(nodes, edges, output, lv),
    ensures
        closed_schedule(edges, lv, output) <==> schedule_closes(nodes, edges, output),
{
    if closed_schedule(edges, lv, output) {
        assert forall|lv2: Seq<Option<usize>>| graph_wf(nodes, edges, lv2.len() as int) && #[trigger] is_schedule(nodes, edges, output, lv2)
            implies closed_schedule(edges, lv2, output) by {
            lemma_schedule_unique(nodes, edges, output, lv, lv2);
            lemma_schedule_unique(nodes, edges, output, lv2, lv);
            assert(lv2[output] == lv[output]);
            assert forall|n: int, j: int| 0 <= n < lv2.len() && lv2[n] is Some && 0 <= j < adjacent(edges, n, false).len()
                implies (#[trigger] lv2[adjacent(edges, n, false)[j]]) is Some by {
                if n >= lv.len() {
                    assert(lv2[n] is None);
                }
                assert(lv[n] == lv2[n]);
                lemma_adjacent_nodes(nodes, edges, lv.len() as int, n, false);
                lemma_adjacent_nodes(nodes, edges, lv2.len() as int, n, false);
                assert(lv[adjacent(edges, n, false)[j]] is Some);
            }
        }
    }
}

/// Whether a schedule is closed (see `closed_schedule`).
fn check_closed(g: &StableGraph<u64, ()>, levels: &Vec<Option<usize>>, output: usize) -> (r: bool)
    requires
        graph_nodes(*g).contains(output as int),
        graph_wf(graph_nodes(*g), graph_edges(*g), levels@.len() as int),
        is_schedule(graph_nodes(*g), graph_edges(*g), output as int, levels@),
    ensures
        r == closed_schedule(graph_edges(*g), levels@, output as int),
{
    let ghost nodes = graph_nodes(*g);
    let ghost edges = graph_edges(*g);
    let ghost lv = levels@;
    if levels[output].is_none() {
        return false;
    }
    let bound = levels.len();
    let mut n: usize = 0;
    while n < bound
        invariant
            n <= bound,
            bound == lv.len(),
            lv == levels@,
            nodes == graph_nodes(*g),
            edges == graph_edges(*g),
            graph_wf(nodes, edges, bound as int),
            is_schedule(nodes, edges, output as int, lv),
            forall|m: int, j: int| 0 <= m < n && lv[m] is Some && 0 <= j < adjacent(edges, m, false).len()
                ==> (#[trigger] lv[adjacent(edges, m, false)[j]]) is Some,
        decreases bound - n,
    {
        if levels[n].is_some() {
            proof {
                assert(level_ok(nodes, edges, output as int, lv, n as int));
                lemma_adjacent_nodes(nodes, edges, bound as int, n as int, false);
            }
            let outs = neighbors_directed(g, n, false);
            let ghost adj = adjacent(edges, n as int, false);
            let mut j: usize = 0;
            while j < outs.len()
                invariant
                    j <= outs@.len(),
                    outs@.len() == adj.len(),
                    lv == levels@,
                    bound == lv.len(),
                    forall|jj: int| 0 <= jj < outs@.len() ==> outs@[jj] as int == #[trigger] adj[jj],
                    forall|jj: int| 0 <= jj < adj.len() ==> 0 <= #[trigger] adj[jj] < bound,
                    forall|jj: int| 0 <= jj < j ==> (#[trigger] lv[adj[jj]]) is Some,
                    adj == adjacent(edges, n as int, false),
                    edges == graph_edges(*g),
                    n < bound,
                    lv[n as int] is Some,
                decreases outs@.len() - j,
            {
                let m = outs[j];
                proof {
                    assert(m as int == adj[j as int]);
                }
                if levels[m].is_none() {
                    proof {
                        assert(lv[adjacent(edges, n as int, false)[j as int]] is None);
                    }
                    return false;
                }
                j += 1;
            }
        }
        n += 1;
    }
    true
}

fn plan_with_schedule(g: &StableGraph<u64, ()>, sched: &Schedule, output: usize, stereo: &Vec<bool>) -> (plan: ExecutionPlan)
    requires
        graph_nodes(*g).contains(output as int),
        forall|n: int| graph_nodes(*g).contains(n) ==> n < stereo@.len(),
        graph_wf(graph_nodes(*g), graph_edges(*g), sched.levels@.len() as int),
        is_schedule(graph_nodes(*g), graph_edges(*g), output as int, sched.levels@),
        rounds_match(sched.levels@, sched.rounds_view()),
        closed_schedule(graph_edges(*g), sched.levels@, output as int),
    ensures
        plan.describes(graph_nodes(*g), graph_edges(*g), output as int, stereo@),
{
    let nrounds = sched.rounds.len();
    let alloc = allocate_buffers(g, sched, output, stereo);
    let plan = assemble(g, sched, &alloc, output);
    proof {
        assert(plan.levels@ == sched.levels@);
        assert(sched.rounds_view().len() == nrounds);
    }
    plan
}

impl ExecutionPlan {
    /// Plans how to run the graph: which nodes run in which workgroup, and which buffers
    /// they write and read. `stereo[n]` tells whether node `n` writes stereo samples.
    pub fn from_graph(g: &StableGraph<u64, ()>, output: usize, stereo: &Vec<bool>) -> (plan: ExecutionPlan)
        requires
            graph_nodes(*g).contains(output as int),
            forall|n: int| graph_nodes(*g).contains(n) ==> n < stereo@.len(),
            schedule_closes(graph_nodes(*g), graph_edges(*g), output as int),
        ensures
            plan.describes(graph_nodes(*g), graph_edges(*g), output as int, stereo@),
    {
        let sched = compute_schedule(g, output);
        plan_with_schedule(g, &sched, output, stereo)
    }

    /// Like `from_graph`, but first checks that the schedule is closed, and gives `None`
    /// for a graph where a running node would send to a node that never runs, or where the
    /// output itself never runs.
    pub fn try_from_graph(g: &StableGraph<u64, ()>, output: usize, stereo: &Vec<bool>) -> (r: Option<ExecutionPlan>)
        requires
            graph_nodes(*g).contains(output as int),
            forall|n: int| graph_nodes(*g).contains(n) ==> n < stereo@.len(),
        ensures
            r is Some <==> schedule_closes(graph_nodes(*g), graph_edges(*g), output as int),
            r matches Some(plan) ==> plan.describes(graph_nodes(*g), graph_edges(*g), output as int, stereo@),
    {
        let sched = compute_schedule(g, output);
        let closed = check_closed(g, &sched.levels, output);
        proof {
            lemma_closed_transfers(graph_nodes(*g), graph_edges(*g), output as int, sched.levels@);
        }
        if closed {
            Some(plan_with_schedule(g, &sched, output, stereo))
        } else {
            None
        }
    }
}


/// The buffers a workgroup touches, item by item: the item's output buffer, then its inputs.
pub open spec fn touched(items: Seq<WorkItem>, inputs: Seq<usize>) -> Seq<usize>
    decreases items.len(),
{
    if items.len() == 0 {
        Seq::empty()
    } else {
        let it = items.last();
        touched(items.drop_last(), inputs) + seq![it.output_buffer]
            + inputs.subrange(it.inputs_start as int, it.inputs_end as int)
    }
}

/// No value occurs twice.
pub open spec fn no_repeats(s: Seq<usize>) -> bool {
    forall|i: int, j: int| 0 <= i < j < s.len() ==> #[trigger] s[i] != #[trigger] s[j]
}

fn vec_contains(v: &Vec<usize>, x: usize) -> (r: bool)
    ensures
        r == v@.contains(x),
{
    let mut i: usize = 0;
    while i < v.len()
        invariant
            i <= v@.len(),
            forall|j: int| 0 <= j < i ==> v@[j] != x,
        decreases v@.len() - i,
    {
        if v[i] == x {
            return true;
        }
        i += 1;
    }
    false
}

proof fn lemma_push_no_repeats(s: Seq<usize>, x: usize)
    requires
        no_repeats(s),
        !s.contains(x),
    ensures
        no_repeats(s.push(x)),
{
    assert forall|i: int, j: int| 0 <= i < j < s.push(x).len() implies #[trigger] s.push(x)[i] != #[trigger] s.push(x)[j] by {
        if j == s.len() {
            assert(s[i] == s.push(x)[i]);
        } else {
            assert(s[i] == s.push(x)[i] && s[j] == s.push(x)[j]);
        }
    }
}

proof fn lemma_touched_prefix(items: Seq<WorkItem>, inputs: Seq<usize>, k: int)
    requires
        0 <= k <= items.len(),
    ensures
        touched(items.take(k), inputs).len() <= touched(items, inputs).len(),
        forall|idx: int| 0 <= idx < touched(items.take(k), inputs).len() ==>
            #[trigger] touched(items, inputs)[idx] == touched(items.take(k), inputs)[idx],
    decreases items.len(),
{
    if k == items.len() {
        assert(items.take(k) =~= items);
    } else {
        let d = items.drop_last();
        assert(d.take(k) =~= items.take(k));
        lemma_touched_prefix(d, inputs, k);
    }
}

proof fn lemma_repeat_in_prefix(full: Seq<usize>, pre: Seq<usize>, x: usize)
    requires
        full.len() > pre.len(),
        forall|idx: int| 0 <= idx <= pre.len() ==> #[trigger] full[idx] == pre.push(x)[idx],
        pre.contains(x),
    ensures
        !no_repeats(full),
{
    let k = choose|k: int| 0 <= k < pre.len() && pre[k] == x;
    assert(full[k] == pre.push(x)[k]);
    assert(full[pre.len() as int] == pre.push(x)[pre.len() as int]);
}

impl ExecutionPlan {
    /// Every item's input range lies within `input_buffers`.
    pub open spec fn ranges_ok(&self) -> bool {
        forall|w: int, i: int| 0 <= w < self.workgroups_view().len() && 0 <= i < self.workgroups_view()[w].len() ==>
            (#[trigger] self.workgroups_view()[w][i]).inputs_start <= self.workgroups_view()[w][i].inputs_end
            <= self.input_buffers@.len()
    }

    /// Checks that no buffer is touched twice within a workgroup (written by two items,
    /// written and read, or read twice), so that the items of a workgroup can run in parallel.
    pub fn validate(&self) -> (r: bool)
        requires
            self.ranges_ok(),
        ensures
            r == forall|w: int| 0 <= w < self.workgroups_view().len() ==>
                no_repeats(#[trigger] touched(self.workgroups_view()[w], self.input_buffers@)),
    {
        let ghost wv = self.workgroups_view();
        let ghost inputs = self.input_buffers@;
        let mut w: usize = 0;
        while w < self.workgroups.len()
            invariant
                w <= self.workgroups@.len(),
                wv == self.workgroups_view(),
                inputs == self.input_buffers@,
                self.ranges_ok(),
                forall|v: int| 0 <= v < w ==> no_repeats(#[trigger] touched(wv[v], inputs)),
            decreases self.workgroups@.len() - w,
        {
            let items = &self.workgroups[w];
            proof {
                assert(wv[w as int] == items@);
            }
            let mut seen: Vec<usize> = Vec::new();
            let mut i: usize = 0;
            while i < items.len()
                invariant
                    i <= items@.len(),
                    w < self.workgroups@.len(),
                    wv == self.workgroups_view(),
                    wv[w as int] == items@,
                    inputs == self.input_buffers@,
                    self.ranges_ok(),
                    seen@ == touched(items@.take(i as int), inputs),
                    no_repeats(seen@),
                decreases items@.len() - i,
            {
                let it = items[i];
                proof {
                    assert(wv[w as int][i as int] == it);
                    assert(items@.take(i + 1).drop_last() =~= items@.take(i as int));
                    assert(items@.take(i + 1).last() == it);
                }
                let ghost prefix = seen@;
                if vec_contains(&seen, it.output_buffer) {
                    proof {
                        let full = touched(wv[w as int], inputs);
                        let here = touched(items@.take(i + 1), inputs);
                        lemma_touched_prefix(items@, inputs, i + 1);
                        assert(here == prefix + seq![it.output_buffer] + inputs.subrange(it.inputs_start as int, it.inputs_end as int));
                        assert forall|idx: int| 0 <= idx <= prefix.len() implies #[trigger] full[idx] == prefix.push(it.output_buffer)[idx] by {
                            assert(full[idx] == here[idx]);
                        }
                        lemma_repeat_in_prefix(full, prefix, it.output_buffer);
                    }
                    return false;
                }
                proof {
                    lemma_push_no_repeats(seen@, it.output_buffer);
                }
                seen.push(it.output_buffer);
                let mut j: usize = it.inputs_start;
                while j < it.inputs_end
                    invariant
                        it.inputs_start <= j <= it.inputs_end <= self.input_buffers@.len(),
                        inputs == self.input_buffers@,
                        seen@ == prefix + seq![it.output_buffer] + inputs.subrange(it.inputs_start as int, j as int),
                        no_repeats(seen@),
                        i < items@.len(),
                        w < self.workgroups@.len(),
                        wv == self.workgroups_view(),
                        wv[w as int] == items@,
                        prefix == touched(items@.take(i as int), inputs),
                        items@.take(i + 1).drop_last() == items@.take(i as int),
                        items@.take(i + 1).last() == it,
                    decreases it.inputs_end - j,
                {
                    let b = self.input_buffers[j];
                    if vec_contains(&seen, b) {
                        proof {
                            let full = touched(wv[w as int], inputs);
                            let here = touched(items@.take(i + 1), inputs);
                            lemma_touched_prefix(items@, inputs, i + 1);
                            assert(here == prefix + seq![it.output_buffer] + inputs.subrange(it.inputs_start as int, it.inputs_end as int));
                            assert forall|idx: int| 0 <= idx <= seen@.len() implies #[trigger] full[idx] == seen@.push(b)[idx] by {
                                assert(full[idx] == here[idx]);
                                if idx > prefix.len() {
                                    assert(here[idx] == inputs[it.inputs_start + idx - prefix.len() - 1]);
                                }
                            }
                            lemma_repeat_in_prefix(full, seen@, b);
                        }
                        return false;
                    }
                    proof {
                        lemma_push_no_repeats(seen@, b);
                        assert(inputs.subrange(it.inputs_start as int, j + 1) =~= inputs.subrange(it.inputs_start as int, j as int).push(b));
                    }
                    seen.push(b);
                    j += 1;
                }
                proof {
                    assert(seen@ =~= touched(items@.take(i + 1), inputs));
                }
                i += 1;
            }
            proof {
                assert(items@.take(items@.len() as int) =~= items@);
            }
            w += 1;
        }
        true
    }
}


/// Within a workgroup no two items write the same buffer, and no item reads a buffer that
/// an item of the same workgroup writes: the items of a workgroup can run in parallel.
pub proof fn lemma_workgroup_writes_disjoint(plan: ExecutionPlan, nodes: Set<int>, edges: Seq<(int, int)>, output: int, stereo: Seq<bool>)
    requires
        plan.describes(nodes, edges, output, stereo),
    ensures
        forall|w: int, i1: int, i2: int| 0 <= w < plan.workgroups_view().len() && 0 <= i1 < i2 < plan.workgroups_view()[w].len()
            ==> (#[trigger] plan.workgroups_view()[w][i1]).output_buffer != (#[trigger] plan.workgroups_view()[w][i2]).output_buffer,
        forall|w: int, i1: int, i2: int, k: int|
            #![trigger plan.input_buffers@[k], plan.workgroups_view()[w][i1], plan.workgroups_view()[w][i2]]
            0 <= w < plan.workgroups_view().len() && 0 <= i1 < plan.workgroups_view()[w].len()
            && 0 <= i2 < plan.workgroups_view()[w].len()
            && plan.workgroups_view()[w][i2].inputs_start <= k < plan.workgroups_view()[w][i2].inputs_end
            ==> plan.input_buffers@[k] != plan.workgroups_view()[w][i1].output_buffer,
{
    let wg = plan.workgroups_view();
    let lv = plan.levels@;
    let nb = plan.node_buffers@;
    assert forall|w: int, i1: int, i2: int| 0 <= w < wg.len() && 0 <= i1 < i2 < wg[w].len()
        implies (#[trigger] wg[w][i1]).output_buffer != (#[trigger] wg[w][i2]).output_buffer by {
        let n1 = wg[w][i1].node as int;
        let n2 = wg[w][i2].node as int;
        assert(item_ok(edges, lv, nb, plan.input_buffers@, w, wg[w][i1]));
        assert(item_ok(edges, lv, nb, plan.input_buffers@, w, wg[w][i2]));
        lemma_last_use_after(nodes, edges, lv.len() as int, output, lv, n1);
        lemma_last_use_after(nodes, edges, lv.len() as int, output, lv, n2);
        assert(nb[n1] is Some && nb[n2] is Some);
    }
    assert forall|w: int, i1: int, i2: int, k: int|
        #![trigger plan.input_buffers@[k], wg[w][i1], wg[w][i2]]
        0 <= w < wg.len() && 0 <= i1 < wg[w].len() && 0 <= i2 < wg[w].len()
        && wg[w][i2].inputs_start <= k < wg[w][i2].inputs_end
        implies plan.input_buffers@[k] != wg[w][i1].output_buffer by {
        let j = k - wg[w][i2].inputs_start;
        let n1 = wg[w][i1].node as int;
        let n2 = wg[w][i2].node as int;
        assert(item_ok(edges, lv, nb, plan.input_buffers@, w, wg[w][i1]));
        assert(item_ok(edges, lv, nb, plan.input_buffers@, w, wg[w][i2]));
        let ins = adjacent(edges, n2, true);
        lemma_adjacent_nodes(nodes, edges, lv.len() as int, n2, true);
        lemma_adjacent(edges, n2, true);
        let m = ins[j];
        assert(nb[m] == Some(plan.input_buffers@[wg[w][i2].inputs_start + j]));
        assert(level_ok(nodes, edges, output, lv, n2));
        assert(lv[m]->0 < lv[n2]->0);
        lemma_last_use_after(nodes, edges, lv.len() as int, output, lv, n1);
        assert(edges.contains((m, n2)));
        lemma_adjacent(edges, m, false);
        let outs = adjacent(edges, m, false);
        assert(outs.contains(n2));
        let k = choose|k: int| 0 <= k < outs.len() && outs[k] == n2;
        lemma_max_level_bounds(lv, outs);
        assert(lv[outs[k]]->0 <= last_use(edges, lv, m));
        assert(nb[n1] is Some);
    }
}

} // verus!
