pub mod system_blocker;
pub mod blocking_processor;
pub mod test_systems;
pub mod execute_system;
pub mod waker;
pub mod unwinder;
pub mod graph_run;
pub mod system_queue;
pub mod system_registry;

use vstd::prelude::*;
use std::collections::{HashMap, HashSet};
use std::marker::PhantomData;
use vstd::std_specs::iter::IteratorSpec;

use crate::execution_graph::active_execution_graph::ActiveExecutionGraph;
use crate::execution_graph::{declared_ids, lemma_declared_step};
use crate::processor_ordering::ProcessorOrdering;
use crate::status::StatusKind;

verus! {

broadcast use vstd::std_specs::hash::group_hash_axioms;

/// The processor, specialised by a marker type to one of its steps.
pub struct Processor<T> {
    _t: PhantomData<T>,
}

/// Marks the step that runs one system.
pub struct RunSystem;

/// Marks the step that runs the system of one graph node.
pub struct RunNode;

/// Marks the step that runs a whole graph.
pub struct ExecuteGraph;

/// Marks processing that waits until every queued system has run.
pub struct Blocking;

/// Marks processing that starts every queued system and hands back its handles.
pub struct NonBlocking;

/// One step of non-blocking processing.
pub struct NonBlockingStep;

/// How systems are to be processed.
pub enum Usage {
    Blocking,
    NonBlocking(NonBlockingStep),
}

/// A processor that only reads, and waits until every system has run.
pub struct BlockingReadOnlyProcessor {}

/// What running a system hands back: its final result, the task that goes on
/// running it, or what it panicked with.
pub enum ExecuteSystemResult<R, F, P> {
    Final(R),
    Pending(F),
    Panicked(P),
}

/// What resolving and starting a claimed system came to.
pub enum SystemRun<R, F, P> {
    /// It ran to the end with this result.
    Finished(R),
    /// It ran and reported an error.
    Failed,
    /// It panicked with this payload.
    Panicked(P),
    /// It keeps running in the spawned future it hands back.
    Spawned(F),
    /// Another runner had taken it already.
    Taken,
    /// It could not be resolved.
    Unresolved,
}

/// What a task that was running a system came to.
pub enum TaskOutcome<R, P> {
    /// It finished with this result.
    Finished(R),
    /// The system reported an error.
    Failed,
    /// It panicked with this payload.
    Panicked(P),
}

/// The entries of `entries` whose node is in `queue`, in their order.
pub open spec fn queued_entries(entries: Seq<(u64, ProcessorOrdering)>, queue: Set<u64>) -> Seq<
    (u64, ProcessorOrdering),
>
    decreases entries.len(),
{
    if entries.len() == 0 {
        Seq::empty()
    } else {
        let rest = queued_entries(entries.drop_last(), queue);
        if queue.contains(entries.last().0) {
            rest.push(entries.last())
        } else {
            rest
        }
    }
}

/// `e` is the entry that a queued node without an entry of its own gets: it asks
/// for nothing, with priority key 0.
pub open spec fn default_entry(e: (u64, ProcessorOrdering)) -> bool {
    &&& e.1.before() == Set::<u64>::empty()
    &&& e.1.after() == Set::<u64>::empty()
    &&& e.1.priority() == 0
}

impl Processor<Blocking> {
    /// The entries to build the graph of `queue` from: the entries of `orderings`
    /// whose node is queued, in their order, followed by an entry that asks for
    /// nothing, with priority key 0, for each queued node without an entry, once.
    pub fn graph_entries(queue: &HashSet<u64>, orderings: Vec<(u64, ProcessorOrdering)>) -> (entries: Vec<
        (u64, ProcessorOrdering),
    >)
        ensures
            ({
                let kept = queued_entries(orderings@, queue@);
                &&& kept.len() <= entries@.len()
                &&& entries@.subrange(0, kept.len() as int) == kept
                &&& forall|i: int|
                    kept.len() <= i < entries@.len() ==> {
                        &&& queue@.contains(#[trigger] entries@[i].0)
                        &&& !declared_ids(orderings@).contains(entries@[i].0)
                        &&& default_entry(entries@[i])
                    }
                &&& forall|i: int, j: int|
                    kept.len() <= i < j < entries@.len() ==> #[trigger] entries@[i].0 != #[trigger] entries@[j].0
                &&& forall|x: u64|
                    queue@.contains(x) && !declared_ids(orderings@).contains(x) ==> exists|i: int|
                        kept.len() <= i < entries@.len() && #[trigger] entries@[i].0 == x
            }),
    {
        let ghost input = orderings@;
        let mut entries: Vec<(u64, ProcessorOrdering)> = Vec::new();
        let mut ordered: HashSet<u64> = HashSet::new();
        for entry in it: orderings.into_iter()
            invariant
                it.seq() == input,
                entries@ == queued_entries(input.take(it.index() as int), queue@),
                forall|x: u64|
                    #[trigger] ordered@.contains(x) <==> queue@.contains(x) && declared_ids(
                        input.take(it.index() as int),
                    ).contains(x),
        {
            let ghost k = it.index() as int;
            proof {
                assert(input[k] == entry);
                assert(input.take(k + 1) == input.take(k).push(entry));
                assert(input.take(k + 1).drop_last() == input.take(k));
                lemma_declared_step(input.take(k), entry);
            }
            if queue.contains(&entry.0) {
                ordered.insert(entry.0);
                entries.push(entry);
            }
        }
        proof {
            assert(input.take(input.len() as int) == input);
        }
        let ghost kept = entries@;
        let ghost n1 = kept.len() as int;
        let ghost keys = vstd::std_specs::hash::spec_hash_keys_iter(queue).remaining();
        for id in it: queue.iter()
            invariant
                it.seq() == keys,
                keys == vstd::std_specs::hash::spec_hash_keys_iter(queue).remaining(),
                kept == queued_entries(input, queue@),
                n1 == kept.len(),
                n1 <= entries@.len(),
                entries@.subrange(0, n1) == kept,
                forall|x: u64|
                    #[trigger] ordered@.contains(x) <==> queue@.contains(x) && declared_ids(input).contains(x),
                forall|i: int|
                    n1 <= i < entries@.len() ==> {
                        &&& queue@.contains(#[trigger] entries@[i].0)
                        &&& !declared_ids(input).contains(entries@[i].0)
                        &&& default_entry(entries@[i])
                        &&& exists|j: int| 0 <= j < it.index() && *keys[j] == entries@[i].0
                    },
                forall|i: int, j: int|
                    n1 <= i < j < entries@.len() ==> #[trigger] entries@[i].0 != #[trigger] entries@[j].0,
                forall|j: int|
                    0 <= j < it.index() && !ordered@.contains(*#[trigger] keys[j]) ==> exists|i: int|
                        n1 <= i < entries@.len() && entries@[i].0 == *keys[j],
        {
            let ghost idx = it.index() as int;
            let ghost before = entries@;
            proof {
                assert(keys[idx] == id);
                assert(keys.unref()[idx] == *id);
                assert(keys.unref().to_set().contains(*id));
                assert(queue@.contains(*id));
                assert(keys.no_duplicates());
            }
            if !ordered.contains(id) {
                let empty_before: HashSet<u64> = HashSet::new();
                let empty_after: HashSet<u64> = HashSet::new();
                entries.push((*id, ProcessorOrdering::new(empty_before, empty_after, 0)));
                proof {
                    assert(default_entry(entries@[before.len() as int]));
                    assert(entries@.subrange(0, n1) == before.subrange(0, n1));
                    assert forall|i: int, j: int|
                        n1 <= i < j < entries@.len() implies #[trigger] entries@[i].0 != #[trigger] entries@[j].0 by {
                        if j == before.len() {
                            assert(entries@[i] == before[i]);
                            let jj = choose|jj: int| 0 <= jj < idx && *keys[jj] == before[i].0;
                            assert(keys[jj] != keys[idx]);
                        } else {
                            assert(entries@[i] == before[i] && entries@[j] == before[j]);
                        }
                    }
                }
            }
            proof {
                assert forall|i: int|
                    n1 <= i < entries@.len() implies exists|j: int| 0 <= j < idx + 1 && *keys[j] == #[trigger] entries@[i].0 by {
                    if i < before.len() {
                        assert(entries@[i] == before[i]);
                        let jj = choose|jj: int| 0 <= jj < idx && *keys[jj] == before[i].0;
                        assert(0 <= jj < idx + 1 && *keys[jj] == entries@[i].0);
                    } else {
                        assert(0 <= idx < idx + 1 && *keys[idx] == entries@[i].0);
                    }
                }
                assert forall|j: int|
                    0 <= j < idx + 1 && !ordered@.contains(*#[trigger] keys[j]) implies exists|i: int|
                        n1 <= i < entries@.len() && entries@[i].0 == *keys[j] by {
                    if j < idx {
                        let i = choose|i: int| n1 <= i < before.len() && before[i].0 == *keys[j];
                        assert(entries@[i] == before[i]);
                    } else {
                        assert(entries@[before.len() as int].0 == *keys[j]);
                    }
                }
            }
        }
        proof {
            assert forall|x: u64| queue@.contains(x) && !declared_ids(input).contains(x) implies exists|i: int|
                n1 <= i < entries@.len() && #[trigger] entries@[i].0 == x by {
                assert(keys.unref().to_set().contains(x));
                let j = choose|j: int| 0 <= j < keys.unref().len() && keys.unref()[j] == x;
                assert(*keys[j] == x);
                assert(!ordered@.contains(x));
            }
        }
        entries
    }

    /// The run flag of every system of `queue`, set: each may be claimed once.
    pub fn initial_statuses(queue: &HashSet<u64>) -> (statuses: HashMap<u64, bool>)
        ensures
            statuses@.dom() == queue@,
            forall|id: u64| #[trigger] statuses@.contains_key(id) ==> statuses@[id],
    {
        let mut statuses: HashMap<u64, bool> = HashMap::new();
        let ghost keys = vstd::std_specs::hash::spec_hash_keys_iter(queue).remaining();
        for id in it: queue.iter()
            invariant
                it.seq() == keys,
                keys == vstd::std_specs::hash::spec_hash_keys_iter(queue).remaining(),
                forall|y: u64|
                    #[trigger] statuses@.contains_key(y) <==> exists|i: int|
                        0 <= i < it.index() && *keys[i] == y,
                forall|y: u64| #[trigger] statuses@.contains_key(y) ==> statuses@[y],
        {
            let ghost idx = it.index();
            proof {
                assert(keys[idx] == id);
            }
            statuses.insert(*id, true);
            proof {
                assert forall|y: u64|
                    #[trigger] statuses@.contains_key(y) <==> exists|i: int|
                        0 <= i < idx + 1 && *keys[i] == y by {
                    if y == *id {
                        assert(*keys[idx] == y);
                    } else if exists|i: int| 0 <= i < idx + 1 && *keys[i] == y {
                        let i = choose|i: int| 0 <= i < idx + 1 && *keys[i] == y;
                        assert(i < idx);
                    }
                }
            }
        }
        proof {
            assert forall|y: u64| statuses@.contains_key(y) <==> queue@.contains(y) by {
                if queue@.contains(y) {
                    assert(keys.unref().to_set().contains(y));
                    let i = choose|i: int| 0 <= i < keys.unref().len() && keys.unref()[i] == y;
                    assert(*keys[i] == y);
                }
                if statuses@.contains_key(y) {
                    let i = choose|i: int| 0 <= i < keys.len() && *keys[i] == y;
                    assert(keys.unref()[i] == y);
                    assert(keys.unref().to_set().contains(y));
                }
            }
            assert(statuses@.dom() =~= queue@);
        }
        statuses
    }
}

impl Processor<NonBlocking> {
    /// What a system run on a thread of its own came to, with a panic turned into a
    /// panicked result (`Err` with the payload, inside `Ok(Some(..))`); a result or
    /// an error of the system is handed on as it is.
    pub fn panic_as_result<S, E, P>(outcome: Result<Result<Option<S>, E>, P>) -> (r: Result<
        Option<Result<S, P>>,
        E,
    >)
        ensures
            r == match outcome {
                Ok(Ok(Some(result))) => Ok(Some(Ok(result))),
                Ok(Ok(None)) => Ok(None),
                Ok(Err(error)) => Err(error),
                Err(payload) => Ok(Some(Err(payload))),
            },
    {
        match outcome {
            Ok(Ok(Some(result))) => Ok(Some(Ok(result))),
            Ok(Ok(None)) => Ok(None),
            Ok(Err(error)) => Err(error),
            Err(payload) => Ok(Some(Err(payload))),
        }
    }
}

impl Processor<RunNode> {
    /// The details of `program`, or `default` when it has none.
    pub fn details_for<'a, D>(program_details_map: &'a HashMap<u64, D>, program: u64, default: &'a D) -> (d: &'a D)
        ensures
            *d == if program_details_map@.contains_key(program) {
                program_details_map@[program]
            } else {
                *default
            },
    {
        match program_details_map.get(&program) {
            Some(details) => details,
            None => default,
        }
    }
}

impl Processor<RunSystem> {
    /// Takes the right to run a system: `true` when its flag was set; the flag is
    /// cleared either way.
    pub fn claim(status: &mut bool) -> (claimed: bool)
        ensures
            claimed == *old(status),
            !*final(status),
    {
        let claimed = *status;
        *status = false;
        claimed
    }

    /// What the claimed run of a system that came to `out` hands on (see
    /// [`system_ran`]), with the flag `status`, clear, set again where the system
    /// is to be tried again.
    pub(crate) fn hand_on<R, F, P>(status: &mut bool, out: SystemRun<R, F, P>) -> (r: Option<
        ExecuteSystemResult<R, F, P>,
    >)
        requires
            !*old(status),
        ensures
            system_ran(out, r, *final(status)),
    {
        match out {
            SystemRun::Finished(result) => Some(ExecuteSystemResult::Final(result)),
            SystemRun::Failed => {
                *status = true;
                None
            },
            SystemRun::Panicked(payload) => Some(ExecuteSystemResult::Panicked(payload)),
            SystemRun::Spawned(task) => Some(ExecuteSystemResult::Pending(task)),
            SystemRun::Taken => None,
            SystemRun::Unresolved => {
                *status = true;
                None
            },
        }
    }

    /// Runs a system only when it can be claimed: when its flag is clear, `run` is
    /// not called, nothing comes of it and the flag stays clear. Otherwise the flag
    /// is cleared and `run` resolves and starts the system (see [`system_ran`]).
    pub fn run_system<R, F, P, Run: FnOnce() -> SystemRun<R, F, P>>(status: &mut bool, run: Run) -> (r:
        Option<ExecuteSystemResult<R, F, P>>)
        requires
            *old(status) ==> run.requires(()),
        ensures
            !*old(status) ==> r is None && !*final(status),
            *old(status) ==> exists|out: SystemRun<R, F, P>|
                #[trigger] run.ensures((), out) && system_ran(out, r, *final(status)),
    {
        if Self::claim(status) {
            let out = run();
            Self::hand_on(status, out)
        } else {
            None
        }
    }
}

/// What a claimed run of a system that came to `out` hands on, and the flag it
/// leaves: a result, a future or a panic is handed on and the flag stays clear;
/// after an error, or when the system could not be resolved, nothing is handed on
/// and the flag is set again so that the system is tried again; a system that
/// another runner took gives nothing and leaves the flag clear.
pub open spec fn system_ran<R, F, P>(out: SystemRun<R, F, P>, r: Option<ExecuteSystemResult<R, F, P>>, flag: bool) -> bool {
    match out {
        SystemRun::Finished(result) => r == Some(ExecuteSystemResult::<R, F, P>::Final(result)) && !flag,
        SystemRun::Failed => r is None && flag,
        SystemRun::Panicked(payload) => r == Some(ExecuteSystemResult::<R, F, P>::Panicked(payload)) && !flag,
        SystemRun::Spawned(task) => r == Some(ExecuteSystemResult::<R, F, P>::Pending(task)) && !flag,
        SystemRun::Taken => r is None && !flag,
        SystemRun::Unresolved => r is None && flag,
    }
}

/// The stages after `node` has been completed, when it is a node of the graph.
pub open spec fn completed(statuses: Map<u64, StatusKind>, node: u64) -> Map<u64, StatusKind> {
    if statuses.contains_key(node) {
        statuses.insert(node, StatusKind::Complete)
    } else {
        statuses
    }
}

/// The stages after `node` has been made pending, which happens only from
/// `Incomplete`.
pub open spec fn made_pending(statuses: Map<u64, StatusKind>, node: u64) -> Map<u64, StatusKind> {
    if statuses.contains_key(node) && statuses[node] == StatusKind::Incomplete {
        statuses.insert(node, StatusKind::Pending)
    } else {
        statuses
    }
}

impl Processor<RunNode> {
    /// Records on the graph what running the system of `node` came to, and hands it
    /// on: a final result or a panic completes the node, a task makes it pending,
    /// nothing leaves it as it is.
    pub fn run_node<R, F, P>(
        graph: &mut ActiveExecutionGraph,
        node: u64,
        result: Option<ExecuteSystemResult<R, F, P>>,
    ) -> (r: Option<ExecuteSystemResult<R, F, P>>)
        requires
            old(graph).wf(),
        ensures
            r == result,
            final(graph).wf(),
            final(graph).dependencies() == old(graph).dependencies(),
            final(graph).statuses() == match result {
                Some(ExecuteSystemResult::Final(_)) => completed(old(graph).statuses(), node),
                Some(ExecuteSystemResult::Panicked(_)) => completed(old(graph).statuses(), node),
                Some(ExecuteSystemResult::Pending(_)) => made_pending(old(graph).statuses(), node),
                None => old(graph).statuses(),
            },
    {
        match &result {
            Some(ExecuteSystemResult::Final(_)) => {
                let _ = graph.mark_status(node, StatusKind::Complete);
            },
            Some(ExecuteSystemResult::Panicked(_)) => {
                let _ = graph.mark_status(node, StatusKind::Complete);
            },
            Some(ExecuteSystemResult::Pending(_)) => {
                let _ = graph.mark_status(node, StatusKind::Pending);
            },
            None => {},
        }
        result
    }
}

impl Processor<ExecuteGraph> {
    /// Records what the task running the system of `node` came to. A result or a
    /// panic completes the node and is handed back to be kept; after an error the
    /// node's flag is set again, so that its system is run again, and nothing is
    /// kept.
    pub fn settle_task<R, P>(
        graph: &mut ActiveExecutionGraph,
        status: &mut bool,
        node: u64,
        outcome: TaskOutcome<R, P>,
    ) -> (kept: Option<Result<R, P>>)
        requires
            old(graph).wf(),
        ensures
            final(graph).wf(),
            final(graph).dependencies() == old(graph).dependencies(),
            match outcome {
                TaskOutcome::Finished(result) => {
                    &&& kept == Some(Ok::<R, P>(result))
                    &&& final(graph).statuses() == completed(old(graph).statuses(), node)
                    &&& *final(status) == *old(status)
                },
                TaskOutcome::Failed => {
                    &&& kept is None
                    &&& final(graph).statuses() == old(graph).statuses()
                    &&& *final(status)
                },
                TaskOutcome::Panicked(payload) => {
                    &&& kept == Some(Err::<R, P>(payload))
                    &&& final(graph).statuses() == completed(old(graph).statuses(), node)
                    &&& *final(status) == *old(status)
                },
            },
    {
        match outcome {
            TaskOutcome::Finished(result) => {
                let _ = graph.mark_status(node, StatusKind::Complete);
                Some(Ok(result))
            },
            TaskOutcome::Failed => {
                *status = true;
                None
            },
            TaskOutcome::Panicked(payload) => {
                let _ = graph.mark_status(node, StatusKind::Complete);
                Some(Err(payload))
            },
        }
    }
}

} // verus!
