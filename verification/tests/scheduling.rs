use std::collections::{HashMap, HashSet};
use std::rc::Rc;

use aion_processor::execution_data::ExecutionData;
use aion_processor::execution_graph::active_execution_graph::ActiveExecutionGraph;
use aion_processor::execution_graph::ExecutionGraph;
use aion_processor::node::Node;
use aion_processor::node_map::NodeMap;
use aion_processor::processor_ordering::ProcessorOrdering;
use aion_processor::status::{Status, StatusKind};

fn set(items: &[u64]) -> HashSet<u64> {
    items.iter().copied().collect()
}

fn ordering(before: &[u64], after: &[u64], priority: u64) -> ProcessorOrdering {
    ProcessorOrdering::new(set(before), set(after), priority)
}

#[test]
fn status_kind_round_trips_through_its_byte() {
    assert_eq!(StatusKind::try_from(0u8), Ok(StatusKind::Incomplete));
    assert_eq!(StatusKind::try_from(1u8), Ok(StatusKind::Pending));
    assert_eq!(StatusKind::try_from(2u8), Ok(StatusKind::Complete));
    assert_eq!(StatusKind::try_from(3u8), Err(()));
    assert_eq!(StatusKind::Complete.code(), 2);
}

#[test]
fn status_replace_with_and_without_expectation() {
    let mut status = Status::default();
    assert_eq!(status.get(), StatusKind::Incomplete);
    assert_eq!(
        status.replace(StatusKind::Complete, Some(StatusKind::Pending)),
        Err(StatusKind::Incomplete)
    );
    assert_eq!(status.get(), StatusKind::Incomplete);
    assert_eq!(
        status.replace(StatusKind::Pending, Some(StatusKind::Incomplete)),
        Ok(StatusKind::Incomplete)
    );
    assert_eq!(status.get(), StatusKind::Pending);
    assert_eq!(status.replace(StatusKind::Complete, None), Ok(StatusKind::Pending));
    assert_eq!(status.get(), StatusKind::Complete);
}

#[test]
fn execution_data_counts_down_without_going_below_zero() {
    let mut data = ExecutionData::new(2);
    assert!(!data.foo());
    assert_eq!(data.mark_dependency(3), Err(2));
    assert_eq!(data.mark_dependency(1), Ok(2));
    assert_eq!(data.mark_dependency(1), Ok(1));
    assert!(data.foo());
    assert_eq!(data.mark_dependency(1), Err(0));
    assert_eq!(data.mark_status(StatusKind::Complete, None), Ok(StatusKind::Incomplete));
    assert!(!data.foo());
    assert_eq!(data.status().get(), StatusKind::Complete);
}

#[test]
fn node_collects_the_data_up_its_path() {
    let root = Rc::new(Node::new(None, 1));
    let middle = Rc::new(Node::new(Some(Rc::clone(&root)), 2));
    let head = Node::new(Some(Rc::clone(&middle)), 1);
    assert_eq!(*head.data(), 1);
    assert_eq!(*head.parent().as_ref().unwrap().data(), 2);
    assert!(root.parent().is_none());
    assert_eq!(head.get_data_up(), set(&[1, 2]));
    assert_eq!(root.get_data_up(), set(&[1]));
}

#[test]
fn node_map_counts_and_finds_dependents() {
    let mut nodes = HashMap::new();
    nodes.insert(1, set(&[]));
    nodes.insert(2, set(&[1]));
    nodes.insert(3, set(&[1, 2]));
    let map = NodeMap::new(nodes);
    let mut dependents = map.find_all_dependent(1);
    dependents.sort();
    assert_eq!(dependents, vec![2, 3]);
    assert!(map.find_all_dependent(3).is_empty());
    let mut flow: Vec<(u64, usize)> = map
        .create_execution_flow()
        .into_iter()
        .map(|(id, data)| (id, if data.foo() { 0 } else { 1 }))
        .collect();
    flow.sort();
    assert_eq!(flow, vec![(1, 0), (2, 1), (3, 1)]);
}

#[test]
fn ordering_is_cut_down_to_a_superset() {
    let order = ordering(&[1, 5], &[2, 6], 7);
    let (before, after, priority) = order.constrained_by(&set(&[1, 2, 3])).into_assert_before_assert_after_priority();
    assert_eq!(before, set(&[1]));
    assert_eq!(after, set(&[2]));
    assert_eq!(priority, 7);
}

#[test]
fn find_max_priority_names_the_heaviest_node_of_the_cycle() {
    let mut nodes: HashMap<u64, (HashSet<u64>, u64)> = HashMap::new();
    nodes.insert(1, (set(&[]), 3));
    nodes.insert(2, (set(&[]), 9));
    nodes.insert(3, (set(&[]), 4));
    let p1 = Rc::new(Node::new(None, 1));
    let p2 = Rc::new(Node::new(Some(p1), 2));
    let p3 = Some(Rc::new(Node::new(Some(p2), 3)));
    assert_eq!(ExecutionGraph::find_max_priority_in_cycle(&nodes, &p3, &1), Some((2, Some(3))));
    assert_eq!(ExecutionGraph::find_max_priority_in_cycle(&nodes, &p3, &2), Some((2, Some(3))));
    assert_eq!(ExecutionGraph::find_max_priority_in_cycle(&nodes, &p3, &3), None);
    assert_eq!(ExecutionGraph::find_max_priority_in_cycle(&nodes, &p3, &7), None);
    assert_eq!(ExecutionGraph::find_max_priority_in_cycle(&nodes, &None, &1), None);
}

#[test]
fn find_max_priority_keeps_the_head_on_a_tie() {
    let mut nodes: HashMap<u64, (HashSet<u64>, u64)> = HashMap::new();
    nodes.insert(1, (set(&[]), 5));
    nodes.insert(2, (set(&[]), 5));
    let p1 = Rc::new(Node::new(None, 1));
    let p2 = Some(Rc::new(Node::new(Some(p1), 2)));
    assert_eq!(ExecutionGraph::find_max_priority_in_cycle(&nodes, &p2, &1), Some((2, None)));
}

#[test]
fn break_cycles_cuts_the_edge_out_of_the_heaviest_node() {
    let mut nodes: HashMap<u64, (HashSet<u64>, u64)> = HashMap::new();
    nodes.insert(1, (set(&[2]), 10));
    nodes.insert(2, (set(&[1]), 5));
    let world = set(&[1, 2]);
    ExecutionGraph::break_cycles(&mut nodes, &world);
    assert_eq!(nodes[&1], (set(&[2]), 10));
    assert_eq!(nodes[&2], (set(&[]), 5));
}

#[test]
fn break_cycles_removes_a_self_dependency() {
    let mut nodes: HashMap<u64, (HashSet<u64>, u64)> = HashMap::new();
    nodes.insert(4, (set(&[4]), 1));
    ExecutionGraph::break_cycles(&mut nodes, &set(&[4]));
    assert_eq!(nodes[&4], (set(&[]), 1));
}

#[test]
fn break_cycles_keeps_an_acyclic_graph() {
    let mut nodes: HashMap<u64, (HashSet<u64>, u64)> = HashMap::new();
    nodes.insert(1, (set(&[]), 1));
    nodes.insert(2, (set(&[1]), 2));
    nodes.insert(3, (set(&[1, 2]), 3));
    let before = nodes.clone();
    ExecutionGraph::break_cycles(&mut nodes, &set(&[1, 2, 3]));
    assert_eq!(nodes, before);
}

#[test]
fn construct_paths_marks_what_it_reaches() {
    let mut nodes: HashMap<u64, (HashSet<u64>, u64)> = HashMap::new();
    nodes.insert(1, (set(&[]), 1));
    nodes.insert(2, (set(&[1]), 1));
    nodes.insert(3, (set(&[3]), 1));
    let mut seen = HashSet::new();
    ExecutionGraph::construct_paths(&mut nodes, None, &mut seen);
    assert_eq!(seen, set(&[1, 2]));
    assert_eq!(nodes[&3], (set(&[3]), 1));
}

#[test]
fn graph_activation_and_completion_release_dependents() {
    // 2 runs after 1, 3 runs after 1 and 2; 1 asks to run before 3 as well.
    let entries = vec![
        (1, ordering(&[3], &[], 1)),
        (2, ordering(&[], &[1], 1)),
        (3, ordering(&[], &[2], 1)),
    ];
    let graph = ExecutionGraph::new(&entries);
    let mut active = ActiveExecutionGraph::from(graph);
    assert_eq!(active.get_leaves(), vec![(1, StatusKind::Incomplete)]);
    assert_eq!(active.mark_status(1, StatusKind::Pending), Some(Ok(StatusKind::Incomplete)));
    assert_eq!(active.get_leaves(), vec![(1, StatusKind::Pending)]);
    assert_eq!(active.mark_status(1, StatusKind::Pending), Some(Err(StatusKind::Pending)));
    assert_eq!(active.mark_status(1, StatusKind::Complete), Some(Ok(StatusKind::Pending)));
    assert_eq!(active.get_leaves(), vec![(2, StatusKind::Incomplete)]);
    assert_eq!(active.mark_status(1, StatusKind::Complete), Some(Ok(StatusKind::Complete)));
    assert_eq!(active.get_leaves(), vec![(2, StatusKind::Incomplete)]);
    assert_eq!(active.mark_status(2, StatusKind::Complete), Some(Ok(StatusKind::Incomplete)));
    assert_eq!(active.get_leaves(), vec![(3, StatusKind::Incomplete)]);
    assert_eq!(active.mark_status(3, StatusKind::Complete), Some(Ok(StatusKind::Incomplete)));
    assert!(active.get_leaves().is_empty());
    assert_eq!(active.mark_status(9, StatusKind::Complete), None);
    assert_eq!(active.mark_status(3, StatusKind::Pending), Some(Err(StatusKind::Complete)));
}

#[test]
fn graph_built_from_a_cycle_breaks_it_by_priority() {
    let entries = vec![(1, ordering(&[], &[2], 10)), (2, ordering(&[], &[1], 5))];
    let mut active = ActiveExecutionGraph::from(ExecutionGraph::new(&entries));
    assert_eq!(active.get_leaves(), vec![(2, StatusKind::Incomplete)]);
    active.mark_status(2, StatusKind::Complete);
    assert_eq!(active.get_leaves(), vec![(1, StatusKind::Incomplete)]);
}

#[test]
fn graph_ignores_requests_about_unknown_nodes() {
    let entries = vec![(1, ordering(&[7], &[8], 1)), (2, ordering(&[], &[], 1))];
    let active = ActiveExecutionGraph::from(ExecutionGraph::new(&entries));
    let mut leaves: Vec<u64> = active.get_leaves().into_iter().map(|(id, _)| id).collect();
    leaves.sort();
    assert_eq!(leaves, vec![1, 2]);
}

#[test]
fn empty_graph_has_no_leaves() {
    let active = ActiveExecutionGraph::from(ExecutionGraph::new(&[]));
    assert!(active.get_leaves().is_empty());
    let default_graph = ActiveExecutionGraph::from(ExecutionGraph::default());
    assert!(default_graph.get_leaves().is_empty());
}

#[test]
fn three_cycle_loses_the_edge_out_of_its_heaviest_node() {
    // 2 runs after 1, 3 after 2, 1 after 3; node 2 is the heaviest.
    let entries = vec![
        (1, ordering(&[], &[3], 5)),
        (2, ordering(&[], &[1], 9)),
        (3, ordering(&[], &[2], 1)),
    ];
    let mut active = ActiveExecutionGraph::from(ExecutionGraph::new(&entries));
    // Only the edge from 2 to 3 is cut: 3 runs first, then 1, then 2.
    assert_eq!(active.get_leaves(), vec![(3, StatusKind::Incomplete)]);
    active.mark_status(3, StatusKind::Complete);
    assert_eq!(active.get_leaves(), vec![(1, StatusKind::Incomplete)]);
    active.mark_status(1, StatusKind::Complete);
    assert_eq!(active.get_leaves(), vec![(2, StatusKind::Incomplete)]);
}

#[test]
fn construct_paths_from_the_roots_cuts_a_cycle_after_its_heaviest_node() {
    // r = 1, a = 2, b = 3: a runs after r and b, b runs after a.
    let mut nodes: HashMap<u64, (HashSet<u64>, u64)> = HashMap::new();
    nodes.insert(1, (set(&[]), 0));
    nodes.insert(2, (set(&[1, 3]), 2));
    nodes.insert(3, (set(&[2]), 1));
    let mut seen = HashSet::new();
    ExecutionGraph::construct_paths(&mut nodes, None, &mut seen);
    assert_eq!(seen, set(&[1, 2, 3]));
    assert_eq!(nodes[&1], (set(&[]), 0));
    assert_eq!(nodes[&2], (set(&[1, 3]), 2));
    assert_eq!(nodes[&3], (set(&[]), 1));
}

#[test]
fn construct_paths_accepts_a_path_outside_what_was_seen() {
    // 2 runs after 1; the search starts on the path [1] with nothing seen.
    let mut nodes: HashMap<u64, (HashSet<u64>, u64)> = HashMap::new();
    nodes.insert(1, (set(&[]), 0));
    nodes.insert(2, (set(&[1]), 0));
    let mut seen = HashSet::new();
    let start = Some(Rc::new(Node::new(None, 1)));
    ExecutionGraph::construct_paths(&mut nodes, start, &mut seen);
    assert_eq!(seen, set(&[2]));
    assert_eq!(nodes[&2], (set(&[1]), 0));
}

#[test]
fn find_max_priority_needs_no_priority_above_the_match() {
    let mut nodes: HashMap<u64, (HashSet<u64>, u64)> = HashMap::new();
    nodes.insert(1, (set(&[]), 3));
    nodes.insert(2, (set(&[]), 9));
    // 99 is not a key, but the search stops at 1 before reaching it.
    let p0 = Rc::new(Node::new(None, 99));
    let p1 = Rc::new(Node::new(Some(p0), 1));
    let p2 = Some(Rc::new(Node::new(Some(p1), 2)));
    assert_eq!(ExecutionGraph::find_max_priority_in_cycle(&nodes, &p2, &1), Some((2, None)));
}

#[test]
fn run_before_and_run_after_build_the_same_graph() {
    let asked_before = vec![(1, ordering(&[2], &[], 1)), (2, ordering(&[], &[], 2))];
    let asked_after = vec![(1, ordering(&[], &[], 1)), (2, ordering(&[], &[1], 2))];
    for entries in [asked_before, asked_after] {
        let mut active = ActiveExecutionGraph::from(ExecutionGraph::new(&entries));
        assert_eq!(active.get_leaves(), vec![(1, StatusKind::Incomplete)]);
        active.mark_status(1, StatusKind::Complete);
        assert_eq!(active.get_leaves(), vec![(2, StatusKind::Incomplete)]);
    }
}

#[test]
fn flattening_treats_before_and_after_alike() {
    let asked_before = ExecutionGraph::flatten_befores_into_afters(vec![
        (1, ordering(&[2], &[], 4)),
        (2, ordering(&[], &[], 6)),
    ]);
    let asked_after = ExecutionGraph::flatten_befores_into_afters(vec![
        (1, ordering(&[], &[], 4)),
        (2, ordering(&[], &[1], 6)),
    ]);
    assert_eq!(asked_before, asked_after);
    assert_eq!(asked_before[&2], (set(&[1]), 6));
    assert_eq!(asked_before[&1], (set(&[]), 4));
}
