use petgraph::stable_graph::StableGraph;
use toybox::audio::connectivity::Connectivity;
use toybox::audio::execution_graph::{compute_schedule, ExecutionPlan};
use toybox::audio::node_graph::{contains_scope, select_finished_nodes, NodeStatus, NodeType};
use toybox::utility::resource_scope::ResourceScopeID;

/// output <- effect <- source, with the output added first.
fn chain() -> StableGraph<u64, ()> {
    let mut g = StableGraph::new();
    let o = g.add_node(10);
    let s = g.add_node(11);
    let e = g.add_node(12);
    g.add_edge(s, e, ());
    g.add_edge(e, o, ());
    g
}

#[test]
fn chain_is_scheduled_one_node_per_workgroup() {
    let g = chain();
    let sched = compute_schedule(&g, 0);
    assert_eq!(sched.levels, vec![Some(2), Some(0), Some(1)]);
    assert_eq!(sched.rounds[0], vec![1]);
    assert_eq!(sched.rounds[1], vec![2]);
    assert_eq!(sched.rounds[2], vec![0]);
}

#[test]
fn nodes_that_do_not_feed_the_output_are_left_out() {
    let mut g = chain();
    let stray = g.add_node(13);
    let feeds_stray = g.add_node(14);
    g.add_edge(feeds_stray, stray, ());
    let sched = compute_schedule(&g, 0);
    assert_eq!(sched.levels[stray.index()], None);
    assert_eq!(sched.levels[feeds_stray.index()], None);
    assert_eq!(sched.levels[0], Some(2));
}

#[test]
fn a_node_runs_after_its_slowest_input() {
    // a -> b -> o and a -> o: o waits for b.
    let mut g = StableGraph::new();
    let o = g.add_node(0u64);
    let a = g.add_node(1);
    let b = g.add_node(2);
    g.add_edge(a, b, ());
    g.add_edge(b, o, ());
    g.add_edge(a, o, ());
    let sched = compute_schedule(&g, 0);
    assert_eq!(sched.levels, vec![Some(2), Some(0), Some(1)]);
}

#[test]
fn plan_gives_each_node_a_buffer_of_its_kind() {
    let g = chain();
    let stereo = vec![true, false, false];
    let plan = ExecutionPlan::from_graph(&g, 0, &stereo);
    assert!(plan.validate());
    assert_eq!(plan.levels, vec![Some(2), Some(0), Some(1)]);
    let out = plan.node_buffers[0].unwrap();
    let src = plan.node_buffers[1].unwrap();
    let eff = plan.node_buffers[2].unwrap();
    assert_eq!(plan.output_buffer, out);
    assert!(plan.buffer_stereo[out]);
    assert!(!plan.buffer_stereo[src]);
    assert!(!plan.buffer_stereo[eff]);
    assert_ne!(src, eff);
    // The effect reads the source's buffer; the output reads the effect's.
    let eff_item = plan.workgroups[1][0];
    assert_eq!(eff_item.node, 2);
    assert_eq!(eff_item.output_buffer, eff);
    assert_eq!(&plan.input_buffers[eff_item.inputs_start..eff_item.inputs_end], &[src]);
    let out_item = plan.workgroups[2][0];
    assert_eq!(out_item.node, 0);
    assert_eq!(&plan.input_buffers[out_item.inputs_start..out_item.inputs_end], &[eff]);
}

#[test]
fn buffers_are_handed_on_once_read() {
    // s1 -> e1 -> e2 -> o: s1's buffer is free again by the time e2 runs.
    let mut g = StableGraph::new();
    let o = g.add_node(0u64);
    let s1 = g.add_node(1);
    let e1 = g.add_node(2);
    let e2 = g.add_node(3);
    g.add_edge(s1, e1, ());
    g.add_edge(e1, e2, ());
    g.add_edge(e2, o, ());
    let plan = ExecutionPlan::from_graph(&g, 0, &vec![false, false, false, false]);
    assert!(plan.validate());
    assert_eq!(plan.node_buffers[3], plan.node_buffers[1]);
    assert_eq!(plan.buffer_stereo.len(), 2);
}

#[test]
fn graph_whose_output_never_runs_has_no_plan() {
    // A cycle feeding the output keeps it from ever running.
    let mut g = StableGraph::new();
    let o = g.add_node(0u64);
    let a = g.add_node(1);
    let b = g.add_node(2);
    g.add_edge(a, b, ());
    g.add_edge(b, a, ());
    g.add_edge(b, o, ());
    assert!(ExecutionPlan::try_from_graph(&g, 0, &vec![false, false, false]).is_none());
    assert!(ExecutionPlan::try_from_graph(&chain(), 0, &vec![false, false, false]).is_some());
}

#[test]
fn binary_search_over_scope_ids() {
    let ids = vec![ResourceScopeID(1), ResourceScopeID(4), ResourceScopeID(9)];
    assert!(contains_scope(&ids, ResourceScopeID(4)));
    assert!(contains_scope(&ids, ResourceScopeID(9)));
    assert!(!contains_scope(&ids, ResourceScopeID(5)));
    assert!(!contains_scope(&Vec::new(), ResourceScopeID(0)));
}

fn status(node_type: NodeType, finished_playing: bool, pinned_scope: Option<usize>) -> NodeStatus {
    NodeStatus { node_type, finished_playing, pinned_scope: pinned_scope.map(ResourceScopeID) }
}

#[test]
fn cleanup_selects_finished_and_orphaned_nodes() {
    let mut g = StableGraph::new();
    let o = g.add_node(0u64);
    let playing = g.add_node(1);
    let lonely_effect = g.add_node(2);
    let cut_off = g.add_node(3);
    let pinned = g.add_node(4);
    let finished = g.add_node(5);
    let kept_effect = g.add_node(6);
    g.add_edge(playing, o, ());
    g.add_edge(lonely_effect, o, ());
    g.add_edge(playing, pinned, ());
    g.add_edge(pinned, o, ());
    g.add_edge(finished, o, ());
    g.add_edge(playing, kept_effect, ());
    g.add_edge(kept_effect, o, ());
    let _ = cut_off;
    let statuses = vec![
        status(NodeType::Effect, false, Some(0)),
        status(NodeType::Source, false, None),
        status(NodeType::Effect, false, None),
        status(NodeType::Source, false, None),
        status(NodeType::Effect, false, Some(7)),
        status(NodeType::Source, true, None),
        status(NodeType::Effect, false, None),
    ];
    let expired = vec![ResourceScopeID(3), ResourceScopeID(7)];
    let removed = select_finished_nodes(&g, 0, &statuses, &expired);
    assert_eq!(removed, vec![2, 3, 4, 5]);
    // Nothing expired: the pinned node stays.
    let removed = select_finished_nodes(&g, 0, &statuses, &Vec::new());
    assert_eq!(removed, vec![2, 3, 5]);
}

#[test]
fn output_is_never_selected_even_when_pinned_to_an_expired_scope() {
    let mut g: StableGraph<u64, ()> = StableGraph::new();
    g.add_node(0);
    let statuses = vec![status(NodeType::Effect, false, Some(0))];
    let removed = select_finished_nodes(&g, 0, &statuses, &vec![ResourceScopeID(0)]);
    assert!(removed.is_empty());
}

#[test]
fn pinned_effect_without_inputs_is_kept_while_connected() {
    let mut g = StableGraph::new();
    let o = g.add_node(0u64);
    let e = g.add_node(1);
    g.add_edge(e, o, ());
    let statuses = vec![status(NodeType::Effect, false, None), status(NodeType::Effect, false, Some(2))];
    assert!(select_finished_nodes(&g, 0, &statuses, &vec![ResourceScopeID(1)]).is_empty());
}

#[test]
fn removed_nodes_leave_gaps_that_are_skipped() {
    let mut g = chain();
    let extra = g.add_node(13);
    g.add_edge(extra, petgraph::graph::NodeIndex::new(0), ());
    g.remove_node(petgraph::graph::NodeIndex::new(2));
    let statuses = vec![
        status(NodeType::Effect, false, None),
        status(NodeType::Source, false, None),
        status(NodeType::Effect, false, None),
        status(NodeType::Source, false, None),
    ];
    // The source lost its only way to the output.
    assert_eq!(select_finished_nodes(&g, 0, &statuses, &Vec::new()), vec![1]);
}

#[test]
fn connectivity_starts_with_the_output_and_a_stale_plan() {
    let c = Connectivity::new(99);
    assert_eq!(c.output_index(), 0);
    assert!(c.is_dirty());
    assert_eq!(c.graph().node_count(), 1);
    assert_eq!(c.graph()[petgraph::graph::NodeIndex::new(0)], 99);
}

#[test]
fn connectivity_only_goes_stale_when_nodes_are_connected() {
    let mut c = Connectivity::new(0);
    assert!(c.update_topology(&vec![true]).unwrap().is_some());
    assert!(!c.is_dirty());
    assert!(c.update_topology(&vec![true]).is_none());
    let lone = c.add_node(1, None);
    assert_eq!(lone, 1);
    assert!(!c.is_dirty());
    let sent = c.add_node(2, Some(0));
    assert_eq!(sent, 2);
    assert!(c.is_dirty());
    let plan = c.update_topology(&vec![true, false, false]).unwrap().unwrap();
    assert_eq!(plan.workgroups.len(), 2);
    assert!(!c.is_dirty());
    c.add_send(lone, sent);
    assert!(c.is_dirty());
    assert_eq!(c.graph().edge_count(), 2);
}

#[test]
fn connectivity_remove_node_drops_its_edges_and_gives_its_key() {
    let mut c = Connectivity::new(10);
    let a = c.add_node(11, Some(0));
    let b = c.add_node(12, Some(a));
    assert_eq!(c.remove_node(a), Some(11));
    assert_eq!(c.remove_node(a), None);
    assert_eq!(c.graph().edge_count(), 0);
    assert_eq!(c.graph().node_count(), 2);
    assert!(c.graph().contains_node(petgraph::graph::NodeIndex::new(b)));
}

#[test]
fn connectivity_cleanup_removes_what_was_selected() {
    let mut c = Connectivity::new(100);
    let playing = c.add_node(101, Some(0));
    let finished = c.add_node(102, Some(0));
    let effect = c.add_node(103, Some(0));
    c.add_send(finished, effect);
    let _ = c.update_topology(&vec![true, false, false, false]);
    let statuses = vec![
        status(NodeType::Effect, false, None),
        status(NodeType::Source, false, None),
        status(NodeType::Source, true, None),
        status(NodeType::Effect, false, None),
    ];
    let removed = c.cleanup_finished_nodes(&statuses, &Vec::new());
    assert_eq!(removed, vec![(finished, 102)]);
    assert!(c.is_dirty());
    assert!(c.graph().contains_node(petgraph::graph::NodeIndex::new(playing)));
    assert!(c.graph().contains_node(petgraph::graph::NodeIndex::new(effect)));
    assert_eq!(c.graph().edge_count(), 2);
    // The effect lost its only input; the next pass removes it.
    let removed = c.cleanup_finished_nodes(&statuses, &Vec::new());
    assert_eq!(removed, vec![(effect, 103)]);
    assert_eq!(c.graph().edge_count(), 1);
}
