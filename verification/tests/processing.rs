use std::collections::HashSet;
use std::sync::mpsc::channel;

use aion_processor::execution_graph::active_execution_graph::ActiveExecutionGraph;
use aion_processor::execution_graph::ExecutionGraph;
use aion_processor::processor::blocking_processor::BlockingProcessor;
use aion_processor::processor::execute_system::{ExecuteSystem, SystemKind};
use aion_processor::processor::graph_run::GraphRun;
use aion_processor::processor::system_blocker::{CurrentSystemBlockers, SystemBlocker};
use aion_processor::processor::test_systems::TestSystems;
use aion_processor::processor::unwinder::Unwinder;
use aion_processor::processor::system_queue::SystemQueue;
use aion_processor::processor::system_registry::{Invariant, SystemRegistry};
use aion_processor::processor::{
    Blocking, ExecuteGraph, ExecuteSystemResult, NonBlocking, Processor, RunNode, RunSystem, SystemRun,
    TaskOutcome,
};
use aion_processor::processor_ordering::ProcessorOrdering;
use aion_processor::status::StatusKind;
use aion_processor::system::system_result::{SystemResult, SystemResultBuilder};

fn set(items: &[u64]) -> HashSet<u64> {
    items.iter().copied().collect()
}

fn ordering(before: &[u64], after: &[u64], priority: u64) -> ProcessorOrdering {
    ProcessorOrdering::new(set(before), set(after), priority)
}

/// Node 2 runs after node 1.
fn chain() -> ExecutionGraph {
    ExecutionGraph::new(&[(1, ordering(&[], &[], 0)), (2, ordering(&[], &[1], 0))])
}

fn leaf_ids(graph: &ActiveExecutionGraph) -> Vec<u64> {
    let mut ids: Vec<u64> = graph.get_leaves().into_iter().map(|(id, _)| id).collect();
    ids.sort();
    ids
}

#[test]
fn claiming_clears_the_flag() {
    let mut flag = true;
    assert!(Processor::<RunSystem>::claim(&mut flag));
    assert!(!flag);
    assert!(!Processor::<RunSystem>::claim(&mut flag));
    assert!(!flag);
}

#[test]
fn run_system_hands_on_results_and_retries_errors() {
    let mut flag = true;
    let r = Processor::<RunSystem>::run_system::<u32, &str, &str, _>(&mut flag, || SystemRun::Finished(7));
    assert!(matches!(r, Some(ExecuteSystemResult::Final(7))));
    assert!(!flag);

    let mut flag = true;
    let r = Processor::<RunSystem>::run_system::<u32, &str, &str, _>(&mut flag, || SystemRun::Spawned("future"));
    assert!(matches!(r, Some(ExecuteSystemResult::Pending("future"))));
    assert!(!flag);

    let mut flag = true;
    let r = Processor::<RunSystem>::run_system::<u32, &str, &str, _>(&mut flag, || SystemRun::Panicked("boom"));
    assert!(matches!(r, Some(ExecuteSystemResult::Panicked("boom"))));
    assert!(!flag);

    let mut flag = true;
    let r = Processor::<RunSystem>::run_system::<u32, &str, &str, _>(&mut flag, || SystemRun::Taken);
    assert!(r.is_none());
    assert!(!flag);

    let mut flag = true;
    let r = Processor::<RunSystem>::run_system::<u32, &str, &str, _>(&mut flag, || SystemRun::Failed);
    assert!(r.is_none());
    assert!(flag);

    let mut flag = true;
    let r = Processor::<RunSystem>::run_system::<u32, &str, &str, _>(&mut flag, || SystemRun::Unresolved);
    assert!(r.is_none());
    assert!(flag);
}

#[test]
fn run_system_does_not_run_an_unclaimed_system() {
    let mut flag = false;
    let mut ran = false;
    let r = Processor::<RunSystem>::run_system::<u32, &str, &str, _>(&mut flag, || {
        ran = true;
        SystemRun::Finished(1)
    });
    assert!(r.is_none());
    assert!(!flag);
    assert!(!ran);
}

#[test]
fn run_node_completes_or_suspends_the_node() {
    let mut graph = ActiveExecutionGraph::from(chain());
    assert_eq!(leaf_ids(&graph), vec![1]);

    let r = Processor::<RunNode>::run_node::<u32, &str, &str>(
        &mut graph,
        1,
        Some(ExecuteSystemResult::Pending("future")),
    );
    assert!(matches!(r, Some(ExecuteSystemResult::Pending("future"))));
    assert_eq!(graph.get_leaves(), vec![(1, StatusKind::Pending)]);

    let r = Processor::<RunNode>::run_node::<u32, &str, &str>(&mut graph, 1, None);
    assert!(r.is_none());
    assert_eq!(graph.get_leaves(), vec![(1, StatusKind::Pending)]);

    let r = Processor::<RunNode>::run_node::<u32, &str, &str>(
        &mut graph,
        1,
        Some(ExecuteSystemResult::Final(3)),
    );
    assert!(matches!(r, Some(ExecuteSystemResult::Final(3))));
    assert_eq!(graph.get_leaves(), vec![(2, StatusKind::Incomplete)]);

    let r = Processor::<RunNode>::run_node::<u32, &str, &str>(
        &mut graph,
        2,
        Some(ExecuteSystemResult::Panicked("boom")),
    );
    assert!(matches!(r, Some(ExecuteSystemResult::Panicked("boom"))));
    assert!(graph.get_leaves().is_empty());
    assert!(graph.is_finished());
}

#[test]
fn settle_task_keeps_results_and_retries_errors() {
    let mut graph = ActiveExecutionGraph::from(chain());
    let mut flag = false;

    let kept = Processor::<ExecuteGraph>::settle_task::<u32, &str>(&mut graph, &mut flag, 1, TaskOutcome::Failed);
    assert!(kept.is_none());
    assert!(flag);
    assert_eq!(leaf_ids(&graph), vec![1]);

    let mut flag = false;
    let kept = Processor::<ExecuteGraph>::settle_task::<u32, &str>(&mut graph, &mut flag, 1, TaskOutcome::Finished(9));
    assert_eq!(kept, Some(Ok(9)));
    assert!(!flag);
    assert_eq!(leaf_ids(&graph), vec![2]);

    let kept = Processor::<ExecuteGraph>::settle_task::<u32, &str>(&mut graph, &mut flag, 2, TaskOutcome::Panicked("boom"));
    assert_eq!(kept, Some(Err("boom")));
    assert!(graph.is_finished());
}

#[test]
fn every_queued_system_starts_with_its_flag_set() {
    let statuses = Processor::<Blocking>::initial_statuses(&set(&[4, 8, 15]));
    let mut keys: Vec<u64> = statuses.keys().copied().collect();
    keys.sort();
    assert_eq!(keys, vec![4, 8, 15]);
    assert!(statuses.values().all(|flag| *flag));
    assert!(Processor::<Blocking>::initial_statuses(&HashSet::new()).is_empty());
}

#[test]
fn test_systems_keeps_those_that_pass() {
    let passing = Processor::<TestSystems>::test_systems(&set(&[1, 2, 3, 4, 5]), |id: u64| id % 2 == 1);
    assert_eq!(passing, set(&[1, 3, 5]));
    let none = Processor::<TestSystems>::test_systems(&set(&[1, 2]), |_id: u64| false);
    assert!(none.is_empty());
}

#[test]
fn execute_system_runs_sync_and_starts_async() {
    let r = Processor::<ExecuteSystem>::execute_system(
        SystemKind::<u32, u32>::Sync(5),
        |s: u32| s * 2,
        |a: u32| a + 100,
    );
    assert_eq!(r, Ok(10));
    let r = Processor::<ExecuteSystem>::execute_system(
        SystemKind::<u32, u32>::Async(5),
        |s: u32| s * 2,
        |a: u32| a + 100,
    );
    assert_eq!(r, Err(105));
}

#[test]
fn blocking_processor_builds_a_graph_per_chunk() {
    let groups = vec![
        vec![(1, ordering(&[], &[], 0))],
        vec![(2, ordering(&[], &[1], 0)), (3, ordering(&[], &[2], 0))],
        vec![(4, ordering(&[], &[], 0))],
    ];
    let graphs = BlockingProcessor::run(groups, 2);
    assert_eq!(graphs.len(), 2);
    assert_eq!(leaf_ids(&graphs[0]), vec![1]);
    assert_eq!(leaf_ids(&graphs[1]), vec![4]);

    let one_each = BlockingProcessor::run(
        vec![vec![(1, ordering(&[], &[], 0))], vec![(2, ordering(&[], &[1], 0))]],
        1,
    );
    assert_eq!(one_each.len(), 2);
    // Node 1 is not in the second chunk, so the request to run after it is dropped.
    assert_eq!(leaf_ids(&one_each[1]), vec![2]);

    assert!(BlockingProcessor::run(Vec::new(), 3).is_empty());
    BlockingProcessor::execute();
}

#[test]
fn graph_run_drives_a_chain_to_the_end() {
    let flags = Processor::<Blocking>::initial_statuses(&set(&[1, 2]));
    let mut run: GraphRun<u32, String> = GraphRun::new(chain(), flags);
    let no_blacklist = HashSet::new();

    assert!(!run.is_finished());
    assert_eq!(run.next_leaf(&no_blacklist), Some(1));
    assert_eq!(run.next_leaf(&set(&[1])), None);
    let claim = run.claim(1).unwrap();
    assert!(run.claim(1).is_none());
    // A claimed node is not offered again.
    assert_eq!(run.next_leaf(&no_blacklist), None);
    assert!(run.record::<&str>(claim, SystemRun::Finished(10)).is_none());

    assert_eq!(run.next_leaf(&no_blacklist), Some(2));
    let claim = run.claim(2).unwrap();
    assert_eq!(claim.node_id(), 2);
    assert_eq!(run.record(claim, SystemRun::Spawned("future")), Some("future"));
    assert!(run.is_awaiting(2));
    assert_eq!(run.next_leaf(&no_blacklist), None);

    // The future fails: the system is run again.
    run.settle(2, TaskOutcome::Failed);
    assert!(!run.is_awaiting(2));
    assert_eq!(run.next_leaf(&no_blacklist), Some(2));
    let claim = run.claim(2).unwrap();
    assert!(run.record::<&str>(claim, SystemRun::Panicked("boom".to_string())).is_none());

    assert!(run.is_finished());
    assert_eq!(run.next_leaf(&no_blacklist), None);
    let results = run.into_results();
    assert_eq!(results.len(), 2);
    assert_eq!(results[&1], Ok(10));
    assert_eq!(results[&2], Err("boom".to_string()));
}

#[test]
fn graph_run_retries_systems_that_fail_or_cannot_be_resolved() {
    let flags = Processor::<Blocking>::initial_statuses(&set(&[1, 2]));
    let mut run: GraphRun<u32, String> = GraphRun::new(chain(), flags);
    let no_blacklist = HashSet::new();

    let claim = run.claim(1).unwrap();
    assert!(run.record::<&str>(claim, SystemRun::Failed).is_none());
    assert_eq!(run.next_leaf(&no_blacklist), Some(1));
    let claim = run.claim(1).unwrap();
    assert!(run.record::<&str>(claim, SystemRun::Unresolved).is_none());
    let claim = run.claim(1).unwrap();
    // Taken by another runner: the flag stays cleared.
    assert!(run.record::<&str>(claim, SystemRun::Taken).is_none());
    assert_eq!(run.next_leaf(&no_blacklist), None);
    assert!(run.claim(1).is_none());
    // Claiming and running together: the cleared flag keeps the system from running.
    assert!(run.claim_and_run::<&str, _>(1, || panic!("an unclaimed system does not run")).is_none());

    let awaited = GraphRun::<u32, String>::new(chain(), Processor::<Blocking>::initial_statuses(&set(&[1, 2])));
    let mut awaited = awaited;
    assert_eq!(awaited.claim_and_run(1, || SystemRun::Spawned(5u8)), Some(5u8));
    awaited.settle(1, TaskOutcome::Finished(4));
    assert_eq!(awaited.next_leaf(&no_blacklist), Some(2));
    assert!(!awaited.is_finished());
    assert_eq!(awaited.into_results()[&1], Ok(4));
}

#[test]
fn unwinder_builds_its_report_and_hands_out_its_channel() {
    let (tx, rx) = channel();
    let unwinder = Unwinder::new(tx, "Thread: 0".to_string());
    assert_eq!(unwinder.message(false), (false, "Thread: 0".to_string()));
    assert_eq!(unwinder.message(true), (true, "Thread: 0".to_string()));
    unwinder.sender().send(unwinder.message(true)).unwrap();
    assert_eq!(rx.recv().unwrap(), (true, "Thread: 0".to_string()));
}

#[test]
fn blockers_block_their_resource() {
    let blocker = SystemBlocker::new(7);
    assert!(blocker.blocks(&7));
    assert!(!blocker.blocks(&8));
    let blockers = CurrentSystemBlockers::new(vec![SystemBlocker::new(1), SystemBlocker::new(3)]);
    assert!(blockers.blocks(&3));
    assert!(!blockers.blocks(&2));
    assert!(!CurrentSystemBlockers::new(Vec::new()).blocks(&1));
}

#[test]
fn system_result_collects_events() {
    let mut result = SystemResult::default();
    assert!(result.spawn_events().is_empty());
    assert!(!result.remove_self());
    result.with_event(3);
    result.with_events(vec![4, 3, 5]);
    result.with_self_as(true);
    assert_eq!(result.spawn_events(), &set(&[3, 4, 5]));
    assert!(result.remove_self());

    let built = SystemResult::new(set(&[1]), false);
    assert_eq!(built.spawn_events(), &set(&[1]));
}

#[test]
fn system_result_builder_chains() {
    let result = SystemResultBuilder::default()
        .with_event(1)
        .with_events(vec![2, 3])
        .without_self()
        .build();
    assert_eq!(result.spawn_events(), &set(&[1, 2, 3]));
    assert!(result.remove_self());
    let kept = SystemResultBuilder::default().without_self().with_self().build();
    assert!(!kept.remove_self());
    assert!(kept.spawn_events().is_empty());
}

#[test]
fn graph_is_finished_only_when_every_node_completed() {
    let mut graph = ActiveExecutionGraph::from(chain());
    assert!(!graph.is_finished());
    let _ = graph.mark_status(1, StatusKind::Complete);
    assert!(!graph.is_finished());
    let _ = graph.mark_status(2, StatusKind::Pending);
    assert!(!graph.is_finished());
    let _ = graph.mark_status(2, StatusKind::Complete);
    assert!(graph.is_finished());
    assert!(ActiveExecutionGraph::from(ExecutionGraph::new(&[])).is_finished());
}

#[test]
fn graph_entries_keep_queued_orderings_and_fill_in_the_rest() {
    let orderings = vec![
        (3, ordering(&[], &[1], 7)),
        (9, ordering(&[], &[], 1)),
        (1, ordering(&[3], &[], 2)),
    ];
    let entries = Processor::<Blocking>::graph_entries(&set(&[1, 3, 5, 6]), orderings);
    assert_eq!(entries.len(), 4);
    assert_eq!(entries[0].0, 3);
    assert_eq!(entries[1].0, 1);
    let mut filled: Vec<u64> = entries[2..].iter().map(|(id, _)| *id).collect();
    filled.sort();
    assert_eq!(filled, vec![5, 6]);
    let (_, last) = entries.into_iter().nth(3).unwrap();
    let (before, after, priority) = last.into_assert_before_assert_after_priority();
    assert!(before.is_empty() && after.is_empty());
    assert_eq!(priority, 0);
}

#[test]
fn a_panic_becomes_a_panicked_result() {
    let ok: Result<Result<Option<u32>, &str>, &str> = Ok(Ok(Some(3)));
    assert_eq!(Processor::<NonBlocking>::panic_as_result(ok), Ok(Some(Ok(3))));
    let nothing: Result<Result<Option<u32>, &str>, &str> = Ok(Ok(None));
    assert_eq!(Processor::<NonBlocking>::panic_as_result(nothing), Ok(None));
    let failed: Result<Result<Option<u32>, &str>, &str> = Ok(Err("system error"));
    assert_eq!(Processor::<NonBlocking>::panic_as_result(failed), Err("system error"));
    let panicked: Result<Result<Option<u32>, &str>, &str> = Err("boom");
    assert_eq!(Processor::<NonBlocking>::panic_as_result(panicked), Ok(Some(Err("boom"))));
}

#[test]
fn program_details_fall_back_to_the_default() {
    let mut details = std::collections::HashMap::new();
    details.insert(1u64, "one");
    let default = "default";
    assert_eq!(*Processor::<RunNode>::details_for(&details, 1, &default), "one");
    assert_eq!(*Processor::<RunNode>::details_for(&details, 2, &default), "default");
}

#[test]
fn promote_keeps_what_can_run_under_what_it_gave() {
    let queue = SystemQueue::new(set(&[1, 2, 3, 4]));
    assert_eq!(queue.systems(), &set(&[1, 2, 3, 4]));
    let promoted = queue.promote(|id: u64| if id % 2 == 0 { Some(id * 10) } else { None });
    assert_eq!(promoted.len(), 2);
    assert_eq!(promoted[&2], 20);
    assert_eq!(promoted[&4], 40);
}

#[test]
fn invariants_filter_and_enqueue_by_criteria_and_blockers() {
    // Criteria are thresholds; the current events are the number 5.
    let events = 5u64;
    let test = |threshold: &u64| *threshold <= events;
    let mut criteria = std::collections::HashMap::new();
    criteria.insert(1u64, 3u64);
    criteria.insert(2u64, 9u64);
    criteria.insert(4u64, 1u64);
    let invariant = Invariant::EventCondition(criteria);
    assert_eq!(invariant.filter(vec![4, 2, 3, 1], &test), vec![4, 1]);
    assert!(invariant.admits(1, &test));
    assert!(!invariant.admits(3, &test));

    let mut registry = std::collections::HashMap::new();
    registry.insert(1u64, 100u64);
    registry.insert(2u64, 100u64);
    registry.insert(4u64, 200u64);
    let registry = SystemRegistry::new(registry);
    let blockers = CurrentSystemBlockers::new(vec![SystemBlocker::new(100)]);
    let queue = registry.enqueue(&vec![invariant], &blockers, &test);
    // 1 is blocked and admitted; 2 is blocked but not admitted; 4 is not blocked.
    assert_eq!(queue.systems(), &set(&[1]));
    let empty: Vec<Invariant<u64>> = Vec::new();
    assert!(registry.enqueue(&empty, &blockers, &test).systems().is_empty());
}
